//! Reading textual server addresses. An address a user types is parsed here,
//! against a grammar stated over its characters, before any query is sent;
//! anything else becomes a recorded failure, never a fault.
use vstd::prelude::*;

verus! {

/// A nameserver address: four IPv4 octets or eight 16-bit IPv6 groups.
#[derive(Clone, Copy, PartialEq, Eq, Structural, Debug)]
pub enum ServerAddr {
    V4 { a: u8, b: u8, c: u8, d: u8 },
    V6 { g0: u16, g1: u16, g2: u16, g3: u16, g4: u16, g5: u16, g6: u16, g7: u16 },
}

/// Whether `c` is a decimal digit.
pub open spec fn is_digit(c: char) -> bool {
    48 <= c as u32 <= 57
}

/// The value of a decimal digit.
pub open spec fn digit_val(c: char) -> int {
    c as u32 - 48
}

/// Whether `c` is a hexadecimal digit.
pub open spec fn is_hex_digit(c: char) -> bool {
    is_digit(c) || (97 <= c as u32 <= 102) || (65 <= c as u32 <= 70)
}

/// The value of a hexadecimal digit.
pub open spec fn hex_digit_val(c: char) -> int {
    if is_digit(c) {
        digit_val(c)
    } else if 97 <= c as u32 {
        c as u32 - 97 + 10
    } else {
        c as u32 - 65 + 10
    }
}

/// Whether every character of `s` is a decimal digit.
pub open spec fn all_digits(s: Seq<char>) -> bool {
    forall|i: int| 0 <= i < s.len() ==> is_digit(#[trigger] s[i])
}

/// Whether every character of `s` is a hexadecimal digit.
pub open spec fn all_hex_digits(s: Seq<char>) -> bool {
    forall|i: int| 0 <= i < s.len() ==> is_hex_digit(#[trigger] s[i])
}

/// The number `s` writes in decimal.
pub open spec fn dec_val(s: Seq<char>) -> int
    decreases s.len(),
{
    if s.len() == 0 {
        0
    } else {
        dec_val(s.drop_last()) * 10 + digit_val(s.last())
    }
}

/// The number `s` writes in hexadecimal.
pub open spec fn hex_val(s: Seq<char>) -> int
    decreases s.len(),
{
    if s.len() == 0 {
        0
    } else {
        hex_val(s.drop_last()) * 16 + hex_digit_val(s.last())
    }
}

/// A decimal number of up to three digits stays below 1000 and is never
/// negative.
pub proof fn lemma_dec_val_bound(s: Seq<char>)
    requires
        all_digits(s),
        s.len() <= 3,
    ensures
        0 <= dec_val(s),
        s.len() <= 1 ==> dec_val(s) < 10,
        s.len() <= 2 ==> dec_val(s) < 100,
        dec_val(s) < 1000,
    decreases s.len(),
{
    if s.len() > 0 {
        assert(all_digits(s.drop_last())) by {
            assert(forall|i: int| 0 <= i < s.len() - 1 ==> s.drop_last()[i] == s[i]);
        }
        assert(is_digit(s.last()));
        lemma_dec_val_bound(s.drop_last());
    }
}

/// A hexadecimal number of up to four digits fits in sixteen bits and is
/// never negative.
pub proof fn lemma_hex_val_bound(s: Seq<char>)
    requires
        all_hex_digits(s),
        s.len() <= 4,
    ensures
        0 <= hex_val(s),
        s.len() <= 1 ==> hex_val(s) < 16,
        s.len() <= 2 ==> hex_val(s) < 256,
        s.len() <= 3 ==> hex_val(s) < 4096,
        hex_val(s) < 0x10000,
    decreases s.len(),
{
    if s.len() > 0 {
        assert(all_hex_digits(s.drop_last())) by {
            assert(forall|i: int| 0 <= i < s.len() - 1 ==> s.drop_last()[i] == s[i]);
        }
        assert(is_hex_digit(s.last()));
        lemma_hex_val_bound(s.drop_last());
    }
}

/// Whether `s` writes one IPv4 octet: one to three decimal digits, no
/// leading zero unless the octet is exactly `0`, value at most 255.
pub open spec fn is_octet_text(s: Seq<char>) -> bool {
    &&& 1 <= s.len() <= 3
    &&& all_digits(s)
    &&& (s[0] == '0' ==> s.len() == 1)
    &&& dec_val(s) <= 255
}

/// Whether `s` writes one IPv6 group: one to four hexadecimal digits.
pub open spec fn is_group_text(s: Seq<char>) -> bool {
    1 <= s.len() <= 4 && all_hex_digits(s)
}

/// The position of the first `sep` in `s`, or the length of `s` when there
/// is none.
pub open spec fn first_sep(s: Seq<char>, sep: char) -> int
    decreases s.len(),
{
    if s.len() == 0 {
        0
    } else if s[0] == sep {
        0
    } else {
        1 + first_sep(s.drop_first(), sep)
    }
}

/// `first_sep` names the first separator: nothing before it is one, and it
/// is one itself unless it names the end.
pub proof fn lemma_first_sep(s: Seq<char>, sep: char)
    ensures
        0 <= first_sep(s, sep) <= s.len(),
        first_sep(s, sep) < s.len() ==> s[first_sep(s, sep)] == sep,
        forall|m: int| 0 <= m < first_sep(s, sep) ==> s[m] != sep,
    decreases s.len(),
{
    if s.len() > 0 && s[0] != sep {
        lemma_first_sep(s.drop_first(), sep);
        assert forall|m: int| 0 <= m < first_sep(s, sep) implies s[m] != sep by {
            if m > 0 {
                assert(s.drop_first()[m - 1] == s[m]);
            }
        }
    }
}

/// `s` cut at every `sep`. A separator at the edge, or two in a row, makes
/// an empty piece.
pub open spec fn split_on(s: Seq<char>, sep: char) -> Seq<Seq<char>>
    decreases s.len(),
{
    let k = first_sep(s, sep);
    if 0 <= k < s.len() && s[k] == sep {
        seq![s.take(k)] + split_on(s.skip(k + 1), sep)
    } else {
        seq![s]
    }
}

/// The characters of `s`, one by one.
fn chars_of(s: &str) -> (v: Vec<char>)
    ensures
        v@ == s@,
{
    let n = s.unicode_len();
    let mut v: Vec<char> = Vec::new();
    let mut i: usize = 0;
    while i < n
        invariant
            i <= n,
            n == s@.len(),
            v@ == s@.take(i as int),
        decreases n - i,
    {
        let c = s.get_char(i);
        v.push(c);
        assert(v@ =~= s@.take(i + 1));
        i += 1;
    }
    assert(s@.take(n as int) =~= s@);
    v
}

/// Cuts `s` at every `sep`, as [`split_on`] describes.
fn split_vec(s: &Vec<char>, sep: char) -> (parts: Vec<Vec<char>>)
    ensures
        parts@.map_values(|p: Vec<char>| p@) == split_on(s@, sep),
{
    let mut parts: Vec<Vec<char>> = Vec::new();
    let mut cur: Vec<char> = Vec::new();
    let ghost mut start: int = 0;
    let mut i: usize = 0;
    proof {
        assert(parts@.map_values(|p: Vec<char>| p@) =~= Seq::<Seq<char>>::empty());
        assert(s@.skip(0) =~= s@);
        assert(cur@ =~= s@.subrange(0, 0));
    }
    while i < s.len()
        invariant
            0 <= start <= i <= s.len(),
            cur@ == s@.subrange(start, i as int),
            forall|m: int| start <= m < i ==> s@[m] != sep,
            split_on(s@, sep) == parts@.map_values(|p: Vec<char>| p@) + split_on(
                s@.skip(start),
                sep,
            ),
        decreases s.len() - i,
    {
        if s[i] == sep {
            proof {
                let suffix = s@.skip(start);
                lemma_first_sep(suffix, sep);
                assert(suffix[i - start] == sep);
                assert forall|m: int| 0 <= m < i - start implies suffix[m] != sep by {
                    assert(suffix[m] == s@[start + m]);
                }
                let f = first_sep(suffix, sep);
                assert(f == i - start) by {
                    if f < i - start {
                        assert(suffix[f] != sep);
                    }
                    if f > i - start {
                        assert(suffix[i - start] != sep);
                    }
                }
                assert(split_on(suffix, sep) == seq![suffix.take(f)] + split_on(
                    suffix.skip(f + 1),
                    sep,
                ));
                assert(suffix.take(f) =~= cur@);
                assert(suffix.skip(f + 1) =~= s@.skip(i + 1));
            }
            let ghost old_parts = parts@;
            parts.push(cur);
            proof {
                assert(parts@.map_values(|p: Vec<char>| p@) =~= old_parts.map_values(
                    |p: Vec<char>| p@,
                ).push(s@.subrange(start, i as int)));
            }
            cur = Vec::new();
            proof {
                start = i + 1;
            }
            assert(cur@ =~= s@.subrange(start, i + 1));
        } else {
            cur.push(s[i]);
            assert(cur@ =~= s@.subrange(start, i + 1));
        }
        i += 1;
    }
    proof {
        let suffix = s@.skip(start);
        lemma_first_sep(suffix, sep);
        assert forall|m: int| 0 <= m < suffix.len() implies suffix[m] != sep by {
            assert(suffix[m] == s@[start + m]);
        }
        let f = first_sep(suffix, sep);
        assert(f == suffix.len()) by {
            if f < suffix.len() {
                assert(suffix[f] != sep);
            }
        }
        assert(split_on(suffix, sep) == seq![suffix]);
        assert(suffix =~= cur@);
    }
    let ghost old_parts = parts@;
    parts.push(cur);
    proof {
        assert(parts@.map_values(|p: Vec<char>| p@) =~= old_parts.map_values(
            |p: Vec<char>| p@,
        ).push(s@.skip(start)));
        assert(parts@.map_values(|p: Vec<char>| p@) =~= split_on(s@, sep));
    }
    parts
}

/// What the four octets of a valid IPv4 text are, if it is one: four octet
/// texts separated by dots.
pub open spec fn spec_parse_ipv4(s: Seq<char>) -> Option<(u8, u8, u8, u8)> {
    let parts = split_on(s, '.');
    if parts.len() == 4 && is_octet_text(parts[0]) && is_octet_text(parts[1]) && is_octet_text(
        parts[2],
    ) && is_octet_text(parts[3]) {
        Some(
            (
                dec_val(parts[0]) as u8,
                dec_val(parts[1]) as u8,
                dec_val(parts[2]) as u8,
                dec_val(parts[3]) as u8,
            ),
        )
    } else {
        None
    }
}

/// Reads one IPv4 octet, exactly when the text is a well-formed octet.
fn parse_octet(part: &Vec<char>) -> (r: Option<u8>)
    ensures
        r is Some <==> is_octet_text(part@),
        r matches Some(b) ==> b == dec_val(part@),
{
    if part.len() < 1 || part.len() > 3 {
        return None;
    }
    if (part[0] as u32) == 48 && part.len() != 1 {
        proof {
            vstd::utf8::char_u32_cast(part@[0], part@[0] as u32);
            vstd::utf8::char_u32_cast('0', '0' as u32);
            assert(part@[0] == '0');
        }
        return None;
    }
    let mut val: u32 = 0;
    let mut i: usize = 0;
    while i < part.len()
        invariant
            i <= part.len() <= 3,
            all_digits(part@.take(i as int)),
            val == dec_val(part@.take(i as int)),
            val < 1000,
        decreases part.len() - i,
    {
        let c = part[i] as u32;
        if c < 48 || c > 57 {
            proof {
                assert(!is_digit(part@[i as int]));
            }
            return None;
        }
        proof {
            assert(part@.take(i + 1).drop_last() =~= part@.take(i as int));
            assert(part@.take(i + 1).last() == part@[i as int]);
            assert(all_digits(part@.take(i + 1)));
            lemma_dec_val_bound(part@.take(i as int));
        }
        val = val * 10 + (c - 48);
        i += 1;
    }
    proof {
        assert(part@.take(part@.len() as int) =~= part@);
    }
    if val > 255 {
        return None;
    }
    Some(val as u8)
}

/// Reads one IPv6 group, exactly when the text is a well-formed group.
fn parse_group(part: &Vec<char>) -> (r: Option<u16>)
    ensures
        r is Some <==> is_group_text(part@),
        r matches Some(g) ==> g == hex_val(part@),
{
    if part.len() < 1 || part.len() > 4 {
        return None;
    }
    let mut val: u32 = 0;
    let mut i: usize = 0;
    while i < part.len()
        invariant
            i <= part.len() <= 4,
            all_hex_digits(part@.take(i as int)),
            val == hex_val(part@.take(i as int)),
            val < 0x10000,
        decreases part.len() - i,
    {
        let c = part[i] as u32;
        let d: u32 = if c >= 48 && c <= 57 {
            c - 48
        } else if c >= 97 && c <= 102 {
            c - 97 + 10
        } else if c >= 65 && c <= 70 {
            c - 65 + 10
        } else {
            proof {
                assert(!is_hex_digit(part@[i as int]));
            }
            return None;
        };
        proof {
            assert(part@.take(i + 1).drop_last() =~= part@.take(i as int));
            assert(part@.take(i + 1).last() == part@[i as int]);
            assert(all_hex_digits(part@.take(i + 1)));
            lemma_hex_val_bound(part@.take(i as int));
            assert(d == hex_digit_val(part@[i as int]));
        }
        val = val * 16 + d;
        i += 1;
    }
    proof {
        assert(part@.take(part@.len() as int) =~= part@);
        lemma_hex_val_bound(part@);
    }
    Some(val as u16)
}

/// Reads an IPv4 address, exactly as [`spec_parse_ipv4`] describes.
fn parse_ipv4_chars(s: &Vec<char>) -> (r: Option<(u8, u8, u8, u8)>)
    ensures
        r == spec_parse_ipv4(s@),
{
    let parts = split_vec(s, '.');
    let ghost sparts = split_on(s@, '.');
    proof {
        assert(parts@.map_values(|p: Vec<char>| p@).len() == parts@.len());
    }
    if parts.len() != 4 {
        return None;
    }
    proof {
        assert forall|k: int| 0 <= k < 4 implies parts@[k]@ == sparts[k] by {
            assert(parts@.map_values(|p: Vec<char>| p@)[k] == parts@[k]@);
        }
    }
    let a = match parse_octet(&parts[0]) {
        Some(v) => v,
        None => {
            return None;
        },
    };
    let b = match parse_octet(&parts[1]) {
        Some(v) => v,
        None => {
            return None;
        },
    };
    let c = match parse_octet(&parts[2]) {
        Some(v) => v,
        None => {
            return None;
        },
    };
    let d = match parse_octet(&parts[3]) {
        Some(v) => v,
        None => {
            return None;
        },
    };
    Some((a, b, c, d))
}

/// The position of the first `::` in `s`, or the length of `s` when there
/// is none.
pub open spec fn first_dsep(s: Seq<char>) -> int
    decreases s.len(),
{
    if s.len() < 2 {
        s.len() as int
    } else if s[0] == ':' && s[1] == ':' {
        0
    } else {
        1 + first_dsep(s.drop_first())
    }
}

/// `first_dsep` names the first `::`: it points at one unless it names the
/// end, and no pair before it is one.
pub proof fn lemma_first_dsep(s: Seq<char>)
    ensures
        0 <= first_dsep(s) <= s.len(),
        first_dsep(s) < s.len() ==> first_dsep(s) + 1 < s.len() && s[first_dsep(s)] == ':'
            && s[first_dsep(s) + 1] == ':',
        forall|m: int|
            0 <= m < first_dsep(s) && m + 1 < s.len() ==> !(#[trigger] s[m] == ':' && s[m + 1]
                == ':'),
    decreases s.len(),
{
    if s.len() >= 2 && !(s[0] == ':' && s[1] == ':') {
        lemma_first_dsep(s.drop_first());
        assert forall|m: int|
            0 <= m < first_dsep(s) && m + 1 < s.len() implies !(#[trigger] s[m] == ':' && s[m + 1]
            == ':') by {
            if m > 0 {
                assert(s.drop_first()[m - 1] == s[m]);
                assert(s.drop_first()[m] == s[m + 1]);
            }
        }
    }
}

/// Whether every piece is a well-formed IPv6 group.
pub open spec fn all_groups(parts: Seq<Seq<char>>) -> bool {
    forall|i: int| 0 <= i < parts.len() ==> is_group_text(#[trigger] parts[i])
}

/// The group values of a list of group texts.
pub open spec fn group_vals(parts: Seq<Seq<char>>) -> Seq<u16> {
    parts.map_values(|g: Seq<char>| hex_val(g) as u16)
}

/// An IPv4 tail counts as the last two groups of an IPv6 address.
pub open spec fn v4_groups(o: (u8, u8, u8, u8)) -> Seq<u16> {
    seq![(o.0 * 256 + o.1) as u16, (o.2 * 256 + o.3) as u16]
}

/// The group values a run of pieces stands for, where the last piece may be
/// an IPv4 tail standing for two groups.
pub open spec fn right_groups(parts: Seq<Seq<char>>) -> Option<Seq<u16>> {
    if all_groups(parts) {
        Some(group_vals(parts))
    } else if parts.len() >= 1 && all_groups(parts.drop_last()) && spec_parse_ipv4(
        parts.last(),
    ) is Some {
        match spec_parse_ipv4(parts.last()) {
            Some(o) => Some(group_vals(parts.drop_last()) + v4_groups(o)),
            None => None,
        }
    } else {
        None
    }
}

/// What the eight groups of a valid IPv6 text are, if it is one. Without a
/// `::` the text must write exactly eight groups (an IPv4 tail counting as
/// two); one `::` stands for the run of zero groups, at least one, that
/// brings the written groups up to eight.
pub open spec fn spec_parse_ipv6(s: Seq<char>) -> Option<Seq<u16>> {
    let f = first_dsep(s);
    if f == s.len() {
        match right_groups(split_on(s, ':')) {
            Some(gs) => if gs.len() == 8 {
                Some(gs)
            } else {
                None
            },
            None => None,
        }
    } else {
        let left = s.take(f);
        let right = s.skip(f + 2);
        let lparts = if left.len() == 0 {
            Seq::<Seq<char>>::empty()
        } else {
            split_on(left, ':')
        };
        let rparts = if right.len() == 0 {
            Seq::<Seq<char>>::empty()
        } else {
            split_on(right, ':')
        };
        if all_groups(lparts) {
            match right_groups(rparts) {
                Some(rg) => {
                    let lg = group_vals(lparts);
                    if lg.len() + rg.len() <= 7 {
                        Some(
                            lg + Seq::new((8 - lg.len() - rg.len()) as nat, |i: int| 0u16) + rg,
                        )
                    } else {
                        None
                    }
                },
                None => None,
            }
        } else {
            None
        }
    }
}

/// Finds the first `::`, exactly as [`first_dsep`] describes.
fn find_dsep(s: &Vec<char>) -> (k: usize)
    ensures
        k == first_dsep(s@),
{
    let mut i: usize = 0;
    while i < s.len() && i + 1 < s.len()
        invariant
            i <= s.len(),
            forall|m: int|
                0 <= m < i && m + 1 < s@.len() ==> !(#[trigger] s@[m] == ':' && s@[m + 1] == ':'),
        decreases s.len() - i,
    {
        if s[i] == ':' && s[i + 1] == ':' {
            proof {
                lemma_first_dsep(s@);
                let f = first_dsep(s@);
                if f < i {
                    assert(!(s@[f] == ':' && s@[f + 1] == ':'));
                }
                if f > i {
                    assert(!(s@[i as int] == ':' && s@[i + 1] == ':'));
                }
            }
            return i;
        }
        i += 1;
    }
    proof {
        lemma_first_dsep(s@);
        let f = first_dsep(s@);
        if f < s@.len() {
            assert(!(s@[f] == ':' && s@[f + 1] == ':'));
        }
    }
    s.len()
}

/// Reads the first `upto` pieces as groups, exactly when all of them are
/// well-formed groups.
fn parse_group_list(parts: &Vec<Vec<char>>, upto: usize) -> (r: Option<Vec<u16>>)
    requires
        upto <= parts@.len(),
    ensures
        ({
            let sp = parts@.map_values(|p: Vec<char>| p@).take(upto as int);
            &&& r is Some <==> all_groups(sp)
            &&& r matches Some(v) ==> v@ == group_vals(sp)
        }),
{
    let ghost spall = parts@.map_values(|p: Vec<char>| p@);
    let mut out: Vec<u16> = Vec::new();
    let mut j: usize = 0;
    while j < upto
        invariant
            j <= upto <= parts@.len(),
            spall == parts@.map_values(|p: Vec<char>| p@),
            all_groups(spall.take(j as int)),
            out@ == group_vals(spall.take(j as int)),
        decreases upto - j,
    {
        proof {
            assert(spall[j as int] == parts@[j as int]@);
        }
        match parse_group(&parts[j]) {
            Some(g) => {
                out.push(g);
                proof {
                    assert(spall.take(j + 1).drop_last() =~= spall.take(j as int));
                    assert(forall|m: int|
                        0 <= m < j + 1 ==> spall.take(j + 1)[m] == #[trigger] spall[m]);
                    assert(out@ =~= group_vals(spall.take(j + 1)));
                }
            },
            None => {
                proof {
                    assert(!is_group_text(spall.take(upto as int)[j as int]));
                }
                return None;
            },
        }
        j += 1;
    }
    Some(out)
}

/// Reads a run of pieces where the last may be an IPv4 tail, exactly as
/// [`right_groups`] describes.
fn parse_right_groups(parts: &Vec<Vec<char>>) -> (r: Option<Vec<u16>>)
    ensures
        ({
            let sp = parts@.map_values(|p: Vec<char>| p@);
            &&& r is Some <==> right_groups(sp) is Some
            &&& r matches Some(v) ==> right_groups(sp) matches Some(g) && v@ == g
        }),
{
    let ghost sp = parts@.map_values(|p: Vec<char>| p@);
    proof {
        assert(sp.take(sp.len() as int) =~= sp);
    }
    match parse_group_list(parts, parts.len()) {
        Some(v) => Some(v),
        None => {
            if parts.len() == 0 {
                return None;
            }
            proof {
                assert(sp.take(sp.len() - 1) =~= sp.drop_last());
                assert(sp[sp.len() - 1] == parts@[parts@.len() - 1]@);
            }
            let mut pre = match parse_group_list(parts, parts.len() - 1) {
                Some(v) => v,
                None => {
                    return None;
                },
            };
            match parse_ipv4_chars(&parts[parts.len() - 1]) {
                Some((a, b, c, d)) => {
                    pre.push((a as u16) * 256 + (b as u16));
                    pre.push((c as u16) * 256 + (d as u16));
                    proof {
                        assert(pre@ =~= group_vals(sp.drop_last()) + v4_groups((a, b, c, d)));
                    }
                    Some(pre)
                },
                None => None,
            }
        },
    }
}

/// Reads an IPv6 address, exactly as [`spec_parse_ipv6`] describes.
fn parse_ipv6_chars(s: &Vec<char>) -> (r: Option<Vec<u16>>)
    ensures
        r is Some <==> spec_parse_ipv6(s@) is Some,
        r matches Some(v) ==> spec_parse_ipv6(s@) matches Some(g) && v@ == g && v@.len() == 8,
{
    let f = find_dsep(s);
    proof {
        lemma_first_dsep(s@);
    }
    if f == s.len() {
        let parts = split_vec(s, ':');
        let gs = match parse_right_groups(&parts) {
            Some(v) => v,
            None => {
                return None;
            },
        };
        if gs.len() == 8 {
            Some(gs)
        } else {
            None
        }
    } else {
        let mut left: Vec<char> = Vec::new();
        let mut i: usize = 0;
        while i < f
            invariant
                f < s@.len(),
                i <= f,
                left@ == s@.take(f as int).take(i as int),
            decreases f - i,
        {
            left.push(s[i]);
            proof {
                assert(left@ =~= s@.take(f as int).take(i + 1));
            }
            i += 1;
        }
        proof {
            assert(s@.take(f as int).take(f as int) =~= s@.take(f as int));
        }
        let mut right: Vec<char> = Vec::new();
        let mut j: usize = f + 2;
        while j < s.len()
            invariant
                f + 2 <= j <= s@.len(),
                right@ == s@.skip(f + 2).take(j - f - 2),
            decreases s.len() - j,
        {
            right.push(s[j]);
            proof {
                assert(right@ =~= s@.skip(f + 2).take(j + 1 - f - 2));
            }
            j += 1;
        }
        proof {
            assert(s@.skip(f + 2).take(s@.len() - f - 2) =~= s@.skip(f + 2));
        }
        let lparts: Vec<Vec<char>> = if left.len() == 0 {
            Vec::new()
        } else {
            split_vec(&left, ':')
        };
        proof {
            if left@.len() == 0 {
                assert(lparts@.map_values(|p: Vec<char>| p@) =~= Seq::<Seq<char>>::empty());
            }
        }
        let rparts: Vec<Vec<char>> = if right.len() == 0 {
            Vec::new()
        } else {
            split_vec(&right, ':')
        };
        proof {
            if right@.len() == 0 {
                assert(rparts@.map_values(|p: Vec<char>| p@) =~= Seq::<Seq<char>>::empty());
            }
        }
        let lg = match parse_group_list(&lparts, lparts.len()) {
            Some(v) => v,
            None => {
                proof {
                    let lsp = lparts@.map_values(|p: Vec<char>| p@);
                    assert(lsp.take(lsp.len() as int) =~= lsp);
                }
                return None;
            },
        };
        proof {
            let lsp = lparts@.map_values(|p: Vec<char>| p@);
            assert(lsp.take(lsp.len() as int) =~= lsp);
        }
        let rg = match parse_right_groups(&rparts) {
            Some(v) => v,
            None => {
                return None;
            },
        };
        if lg.len() > 7 || rg.len() > 7 - lg.len() {
            return None;
        }
        let zeros: usize = 8 - lg.len() - rg.len();
        let mut out: Vec<u16> = lg;
        let ghost lgv = out@;
        let mut z: usize = 0;
        while z < zeros
            invariant
                z <= zeros,
                out@ == lgv + Seq::new(z as nat, |i: int| 0u16),
            decreases zeros - z,
        {
            out.push(0u16);
            proof {
                assert(out@ =~= lgv + Seq::new((z + 1) as nat, |i: int| 0u16));
            }
            z += 1;
        }
        let mut k: usize = 0;
        let ghost mid = out@;
        while k < rg.len()
            invariant
                k <= rg@.len(),
                out@ == mid + rg@.take(k as int),
            decreases rg.len() - k,
        {
            out.push(rg[k]);
            proof {
                assert(out@ =~= mid + rg@.take(k + 1));
            }
            k += 1;
        }
        proof {
            assert(rg@.take(rg@.len() as int) =~= rg@);
        }
        Some(out)
    }
}

/// What a server address text stands for, if anything: an IPv4 address, or
/// else an IPv6 one.
pub open spec fn spec_parse_ip(s: Seq<char>) -> Option<ServerAddr> {
    match spec_parse_ipv4(s) {
        Some(o) => Some(ServerAddr::V4 { a: o.0, b: o.1, c: o.2, d: o.3 }),
        None => match spec_parse_ipv6(s) {
            Some(g) => Some(
                ServerAddr::V6 {
                    g0: g[0],
                    g1: g[1],
                    g2: g[2],
                    g3: g[3],
                    g4: g[4],
                    g5: g[5],
                    g6: g[6],
                    g7: g[7],
                },
            ),
            None => None,
        },
    }
}

/// Reads a server address: a textual IPv4 or IPv6 address, exactly as
/// [`spec_parse_ip`] describes. Anything else, and in particular anything a
/// user typed that is not an address, is `None` — never a fault.
pub fn parse_server_addr(s: &str) -> (r: Option<ServerAddr>)
    ensures
        r == spec_parse_ip(s@),
{
    let chars = chars_of(s);
    match parse_ipv4_chars(&chars) {
        Some((a, b, c, d)) => Some(ServerAddr::V4 { a, b, c, d }),
        None => {
            match parse_ipv6_chars(&chars) {
                Some(g) => Some(
                    ServerAddr::V6 {
                        g0: g[0],
                        g1: g[1],
                        g2: g[2],
                        g3: g[3],
                        g4: g[4],
                        g5: g[5],
                        g6: g[6],
                        g7: g[7],
                    },
                ),
                None => None,
            }
        },
    }
}

} // verus!
