//! Texts of IP addresses and networks.
use vstd::arithmetic::div_mod::lemma_fundamental_div_mod;
use vstd::arithmetic::power2::{lemma_pow2_pos, pow2};
use vstd::prelude::*;

use crate::text::{chars_of, decimal, hex2, hex_char, lemma_hex_char, push_decimal, push_hex2};

verus! {

/// Numbers in decimal with dots between them.
pub open spec fn dotted(bytes: Seq<u8>) -> Seq<char>
    decreases bytes.len(),
{
    if bytes.len() == 0 {
        Seq::empty()
    } else if bytes.len() == 1 {
        decimal(bytes[0] as nat)
    } else {
        decimal(bytes[0] as nat) + seq!['.'] + dotted(bytes.drop_first())
    }
}

/// Pairs of bytes in hexadecimal with colons between them.
pub open spec fn colon_hex(bytes: Seq<u8>) -> Seq<char>
    decreases bytes.len(),
{
    if bytes.len() < 2 {
        Seq::empty()
    } else if bytes.len() == 2 {
        hex2(bytes[0]) + hex2(bytes[1])
    } else {
        colon_hex(bytes.take(bytes.len() - 2)) + seq![':'] + hex2(bytes[bytes.len() - 2]) + hex2(
            bytes[bytes.len() - 1],
        )
    }
}

/// Appends four bytes in decimal with dots between them.
fn push_dotted(s: &mut String, a: u8, b: u8, c: u8, d: u8)
    ensures
        final(s)@ == old(s)@ + dotted(seq![a, b, c, d]),
{
    push_decimal(s, a as u64);
    s.push('.');
    push_decimal(s, b as u64);
    s.push('.');
    push_decimal(s, c as u64);
    s.push('.');
    push_decimal(s, d as u64);
    proof {
        reveal_with_fuel(dotted, 5);
        assert(seq![a, b, c, d].drop_first() =~= seq![b, c, d]);
        assert(seq![b, c, d].drop_first() =~= seq![c, d]);
        assert(seq![c, d].drop_first() =~= seq![d]);
        assert(s@ =~= old(s)@ + dotted(seq![a, b, c, d]));
    }
}

/// Sixteen bytes as pairs in hexadecimal with colons between them.
fn colon_hex_text(bytes: &[u8; 16]) -> (s: String)
    ensures
        s@ == colon_hex(bytes@),
{
    let mut s = String::new();
    push_hex2(&mut s, bytes[0]);
    push_hex2(&mut s, bytes[1]);
    let mut i: usize = 2;
    assert(s@ =~= colon_hex(bytes@.take(2)));
    while i < 16
        invariant
            2 <= i <= 16,
            i % 2 == 0,
            s@ == colon_hex(bytes@.take(i as int)),
        decreases 16 - i,
    {
        s.push(':');
        push_hex2(&mut s, bytes[i]);
        push_hex2(&mut s, bytes[i + 1]);
        assert(bytes@.take(i + 2).take(i as int) =~= bytes@.take(i as int));
        assert(s@ =~= colon_hex(bytes@.take(i + 2)));
        i += 2;
    }
    assert(bytes@.take(16) =~= bytes@);
    s
}

/// The text of an address that a counter key holds: version 4 in the first four bytes, version
/// 6 in all sixteen.
pub open spec fn key_ip_text(ip_version: u8, bytes: Seq<u8>) -> Seq<char> {
    if ip_version == 4 {
        dotted(bytes.take(4))
    } else {
        colon_hex(bytes)
    }
}

/// The text of an address that a counter key holds.
pub fn key_ip_to_string(ip_version: u8, bytes: &[u8; 16]) -> (s: String)
    ensures
        s@ == key_ip_text(ip_version, bytes@),
{
    if ip_version == 4 {
        let mut s = String::new();
        push_dotted(&mut s, bytes[0], bytes[1], bytes[2], bytes[3]);
        assert(bytes@.take(4) =~= seq![bytes@[0], bytes@[1], bytes@[2], bytes@[3]]);
        assert(s@ =~= dotted(bytes@.take(4)));
        s
    } else {
        colon_hex_text(bytes)
    }
}

/// The bytes are those of a version 4 address: mapped into version 6, or padded with zeros and
/// not all zero.
pub open spec fn holds_ipv4(bytes: Seq<u8>) -> bool {
    &&& forall|i: int| 0 <= i < 10 ==> bytes[i] == 0
    &&& {
        ||| bytes[10] == 0xff && bytes[11] == 0xff
        ||| bytes[10] == 0 && bytes[11] == 0 && !(bytes[12] == 0 && bytes[13] == 0 && bytes[14] == 0
            && bytes[15] == 0)
    }
}

/// The text of an address of sixteen bytes: a version 4 address, in the last four of them, with
/// dots, any other with colons.
pub fn ip_to_string(ip_bytes: [u8; 16]) -> (s: String)
    ensures
        s@ == if holds_ipv4(ip_bytes@) {
            dotted(ip_bytes@.subrange(12, 16))
        } else {
            colon_hex(ip_bytes@)
        },
{
    let mut zeros: usize = 0;
    while zeros < 10 && ip_bytes[zeros] == 0
        invariant
            zeros <= 10,
            forall|i: int| 0 <= i < zeros ==> ip_bytes@[i] == 0,
        decreases 10 - zeros,
    {
        zeros += 1;
    }
    let mapped = ip_bytes[10] == 0xff && ip_bytes[11] == 0xff;
    let padded = ip_bytes[10] == 0 && ip_bytes[11] == 0 && (ip_bytes[12] != 0 || ip_bytes[13] != 0
        || ip_bytes[14] != 0 || ip_bytes[15] != 0);
    if zeros == 10 && (mapped || padded) {
        let mut s = String::new();
        push_dotted(&mut s, ip_bytes[12], ip_bytes[13], ip_bytes[14], ip_bytes[15]);
        assert(ip_bytes@.subrange(12, 16) =~= seq![
            ip_bytes@[12],
            ip_bytes@[13],
            ip_bytes@[14],
            ip_bytes@[15],
        ]);
        assert(s@ =~= dotted(ip_bytes@.subrange(12, 16)));
        s
    } else {
        colon_hex_text(&ip_bytes)
    }
}

/// `c` is a decimal digit.
pub open spec fn is_digit(c: char) -> bool {
    '0' <= c && c <= '9'
}

/// The number that digits stand for.
pub open spec fn value_of(s: Seq<char>) -> nat
    decreases s.len(),
{
    if s.len() == 0 {
        0
    } else {
        value_of(s.drop_last()) * 10 + ((s.last() as nat - 48) as nat)
    }
}

proof fn lemma_decimal(n: nat)
    ensures
        decimal(n).len() > 0,
        forall|i: int| 0 <= i < decimal(n).len() ==> is_digit(#[trigger] decimal(n)[i]),
        value_of(decimal(n)) == n,
        decimal(n).len() == 1 || decimal(n)[0] != '0',
        n < 10 ==> decimal(n).len() == 1,
        n < 100 ==> decimal(n).len() <= 2,
        n < 1000 ==> decimal(n).len() <= 3,
        n >= 10 ==> decimal(n).len() > 1,
        n > 0 ==> decimal(n)[0] != '0',
    decreases n,
{
    reveal_with_fuel(value_of, 2);
    if n < 10 {
        assert(decimal(n).drop_last() =~= Seq::empty());
    } else {
        lemma_decimal(n / 10);
        assert(decimal(n).drop_last() =~= decimal(n / 10));
        let d = (n % 10 + 48) as u8 as char;
        assert(decimal(n).last() == d);
        assert(is_digit(d));
        assert forall|i: int| 0 <= i < decimal(n).len() implies is_digit(
            #[trigger] decimal(n)[i],
        ) by {
            if i < decimal(n / 10).len() {
                assert(decimal(n)[i] == decimal(n / 10)[i]);
            }
        }
        assert(decimal(n)[0] == decimal(n / 10)[0]);
    }
}

proof fn lemma_digits_are_decimal(s: Seq<char>)
    requires
        s.len() > 0,
        forall|i: int| 0 <= i < s.len() ==> is_digit(#[trigger] s[i]),
        s.len() == 1 || s[0] != '0',
    ensures
        decimal(value_of(s)) == s,
        s[0] != '0' ==> value_of(s) > 0,
    decreases s.len(),
{
    reveal_with_fuel(value_of, 2);
    let init = s.drop_last();
    let d = s.last();
    assert(is_digit(s[s.len() - 1]));
    if s.len() == 1 {
        assert(init =~= Seq::empty());
        assert(decimal(value_of(s)) =~= s);
    } else {
        assert forall|i: int| 0 <= i < init.len() implies is_digit(#[trigger] init[i]) by {
            assert(init[i] == s[i]);
        }
        lemma_digits_are_decimal(init);
        let v = value_of(s);
        assert(v / 10 == value_of(init));
        assert(v % 10 == d as nat - 48);
        assert(v >= 10);
        assert(((v % 10 + 48) as u8 as char) == d);
        assert(decimal(v) =~= s);
    }
}

/// The number up to `max` whose decimal text stands from `from` to `to`.
fn number_in(v: &Vec<char>, from: usize, to: usize, max: u32) -> (r: Option<u32>)
    requires
        from <= to <= v@.len(),
        max < 1000,
    ensures
        match r {
            Some(n) => n <= max && v@.subrange(from as int, to as int) == decimal(n as nat),
            None => forall|n: nat|
                n <= max ==> v@.subrange(from as int, to as int) != #[trigger] decimal(n),
        },
{
    let ghost s = v@.subrange(from as int, to as int);
    proof {
        assert forall|n: nat| n <= max && s == #[trigger] decimal(n) implies value_of(s) == n
            && 0 < s.len() <= 3 && (s.len() == 1 || s[0] != '0') && forall|i: int|
            0 <= i < s.len() ==> is_digit(#[trigger] s[i]) by {
            lemma_decimal(n);
        }
    }
    if to == from || to - from > 3 {
        return None;
    }
    assert(s[0] == v@[from as int]);
    if to - from > 1 && v[from] == '0' {
        return None;
    }
    let mut value: u32 = 0;
    let mut i: usize = from;
    assert(s.take(0) =~= Seq::empty());
    while i < to
        invariant
            from <= i <= to,
            to <= v@.len(),
            to - from <= 3,
            max < 1000,
            s == v@.subrange(from as int, to as int),
            value == value_of(s.take(i - from)),
            i == from ==> value == 0,
            i == from + 1 ==> value < 10,
            i == from + 2 ==> value < 100,
            i == from + 3 ==> value < 1000,
            forall|j: int| 0 <= j < i - from ==> is_digit(#[trigger] s[j]),
            forall|n: nat|
                n <= max && s == #[trigger] decimal(n) ==> value_of(s) == n && 0 < s.len() <= 3
                    && (s.len() == 1 || s[0] != '0') && forall|i: int|
                    0 <= i < s.len() ==> is_digit(#[trigger] s[i]),
        decreases to - i,
    {
        let c = v[i];
        assert(s[i - from] == c);
        if !('0' <= c && c <= '9') {
            return None;
        }
        assert(s.take(i + 1 - from).drop_last() =~= s.take(i - from));
        value = value * 10 + (c as u32 - 48);
        i += 1;
    }
    assert(s.take(i - from) =~= s);
    proof {
        lemma_digits_are_decimal(s);
    }
    if value > max {
        return None;
    }
    Some(value)
}

proof fn lemma_dotted_chars(bytes: Seq<u8>)
    ensures
        forall|i: int|
            0 <= i < dotted(bytes).len() ==> is_digit(#[trigger] dotted(bytes)[i]) || dotted(
                bytes,
            )[i] == '.',
    decreases bytes.len(),
{
    if bytes.len() > 0 {
        lemma_decimal(bytes[0] as nat);
        if bytes.len() > 1 {
            lemma_dotted_chars(bytes.drop_first());
            let d = decimal(bytes[0] as nat);
            let rest = dotted(bytes.drop_first());
            assert forall|i: int| 0 <= i < dotted(bytes).len() implies is_digit(
                #[trigger] dotted(bytes)[i],
            ) || dotted(bytes)[i] == '.' by {
                if i < d.len() {
                    assert(dotted(bytes)[i] == d[i]);
                } else if i > d.len() {
                    assert(dotted(bytes)[i] == rest[i - d.len() - 1]);
                }
            }
        }
    }
}

/// The position of the first `c` from `from` to `to`, or `to`.
fn next_of(v: &Vec<char>, from: usize, to: usize, c: char) -> (at: usize)
    requires
        from <= to <= v@.len(),
    ensures
        from <= at <= to,
        at < to ==> v@[at as int] == c,
        forall|j: int| from <= j < at ==> v@[j] != c,
{
    let mut at = from;
    while at < to && v[at] != c
        invariant
            from <= at <= to,
            to <= v@.len(),
            forall|j: int| from <= j < at ==> v@[j] != c,
        decreases to - at,
    {
        at += 1;
    }
    at
}

/// The `count` bytes whose dotted text stands from `from` to `to`.
fn dotted_in(v: &Vec<char>, from: usize, to: usize, count: usize) -> (r: Option<Vec<u8>>)
    requires
        from <= to <= v@.len(),
        count > 0,
    ensures
        match r {
            Some(b) => b@.len() == count && v@.subrange(from as int, to as int) == dotted(b@),
            None => forall|b: Seq<u8>|
                b.len() == count ==> v@.subrange(from as int, to as int) != #[trigger] dotted(b),
        },
    decreases count,
{
    let ghost s = v@.subrange(from as int, to as int);
    if count == 1 {
        return match number_in(v, from, to, 255) {
            Some(n) => {
                let mut b: Vec<u8> = Vec::new();
                b.push(n as u8);
                Some(b)
            },
            None => None,
        };
    }
    let at = next_of(v, from, to, '.');
    proof {
        assert forall|b: Seq<u8>| b.len() == count && s == #[trigger] dotted(b) implies at < to
            && v@.subrange(from as int, at as int) == decimal(b[0] as nat) && v@.subrange(
            at + 1,
            to as int,
        ) == dotted(b.drop_first()) && b.drop_first().len() == count - 1 by {
            lemma_decimal(b[0] as nat);
            let d = decimal(b[0] as nat);
            let rest = dotted(b.drop_first());
            assert(s == d + seq!['.'] + rest);
            assert(s.len() == d.len() + 1 + rest.len());
            assert(s[d.len() as int] == '.');
            assert(v@[from + d.len()] == '.');
            assert forall|j: int| from <= j < from + d.len() implies v@[j] != '.' by {
                assert(v@[j] == s[j - from]);
                assert(s[j - from] == d[j - from]);
                assert(is_digit(d[j - from]));
            }
            assert(at == from + d.len());
            assert(v@.subrange(from as int, at as int) =~= d);
            assert forall|j: int| 0 <= j < rest.len() implies rest[j] == v@[at + 1 + j] by {
                assert(s[d.len() + 1 + j] == rest[j]);
            }
            assert(v@.subrange(at + 1, to as int) =~= rest);
        }
    }
    if at == to {
        return None;
    }
    let first = match number_in(v, from, at, 255) {
        Some(n) => n as u8,
        None => {
            return None;
        },
    };
    let rest = match dotted_in(v, at + 1, to, count - 1) {
        Some(b) => b,
        None => {
            return None;
        },
    };
    let mut b = rest;
    b.insert(0, first);
    proof {
        assert(b@.drop_first() =~= rest@);
        assert(s =~= decimal(first as nat) + seq!['.'] + dotted(rest@));
    }
    Some(b)
}

/// The number that four bytes stand for.
pub open spec fn addr_value(b: Seq<u8>) -> int {
    ((b[0] * 256 + b[1]) * 256 + b[2]) * 256 + b[3]
}

/// The text is that of a version 4 address.
pub open spec fn is_ipv4(text: Seq<char>, b: Seq<u8>) -> bool {
    b.len() == 4 && text == dotted(b)
}

/// The text is that of a version 4 network: an address, a slash and a prefix length.
pub open spec fn is_cidr(text: Seq<char>, b: Seq<u8>, prefix: nat) -> bool {
    b.len() == 4 && prefix <= 32 && text == dotted(b) + seq!['/'] + decimal(prefix)
}

/// Two addresses agree in their first `prefix` bits.
pub open spec fn same_network(a: Seq<u8>, b: Seq<u8>, prefix: nat) -> bool {
    addr_value(a) / pow2((32 - prefix) as nat) as int == addr_value(b) / pow2(
        (32 - prefix) as nat,
    ) as int
}

/// The text `ip` is a version 4 address in the network whose text is `cidr`.
pub open spec fn in_cidr(ip: Seq<char>, cidr: Seq<char>) -> bool {
    exists|a: Seq<u8>, n: Seq<u8>, prefix: nat|
        #![trigger is_ipv4(ip, a), is_cidr(cidr, n, prefix)]
        is_ipv4(ip, a) && is_cidr(cidr, n, prefix) && same_network(a, n, prefix)
}

proof fn lemma_cidr_parts(text: Seq<char>, b: Seq<u8>, prefix: nat, at: int)
    requires
        is_cidr(text, b, prefix),
        0 <= at <= text.len(),
        at < text.len() ==> text[at] == '/',
        forall|j: int| 0 <= j < at ==> text[j] != '/',
    ensures
        at < text.len(),
        text.subrange(0, at) == dotted(b),
        text.subrange(at + 1, text.len() as int) == decimal(prefix),
{
    lemma_dotted_chars(b);
    let d = dotted(b);
    assert(text[d.len() as int] == '/');
    assert forall|j: int| 0 <= j < d.len() implies text[j] != '/' by {
        assert(text[j] == d[j]);
    }
    assert(at == d.len());
    assert(text.subrange(0, at) =~= d);
    assert(text.subrange(at + 1, text.len() as int) =~= decimal(prefix));
}

proof fn lemma_decimal_injective(a: nat, b: nat)
    requires
        decimal(a) == decimal(b),
    ensures
        a == b,
{
    lemma_decimal(a);
    lemma_decimal(b);
}

proof fn lemma_dotted_injective(a: Seq<u8>, b: Seq<u8>)
    requires
        a.len() == b.len(),
        dotted(a) == dotted(b),
    ensures
        a == b,
    decreases a.len(),
{
    if a.len() == 1 {
        lemma_decimal_injective(a[0] as nat, b[0] as nat);
        assert(a =~= b);
    } else if a.len() > 1 {
        let s = dotted(a);
        let x = decimal(a[0] as nat);
        let y = decimal(b[0] as nat);
        lemma_decimal(a[0] as nat);
        lemma_decimal(b[0] as nat);
        assert(s[x.len() as int] == '.');
        assert(s[y.len() as int] == '.');
        if x.len() < y.len() {
            assert(s[x.len() as int] == y[x.len() as int]);
            assert(is_digit(y[x.len() as int]));
        }
        if y.len() < x.len() {
            assert(s[y.len() as int] == x[y.len() as int]);
            assert(is_digit(x[y.len() as int]));
        }
        assert(x =~= s.subrange(0, x.len() as int));
        assert(y =~= s.subrange(0, y.len() as int));
        lemma_decimal_injective(a[0] as nat, b[0] as nat);
        assert(dotted(a.drop_first()) =~= s.subrange(x.len() as int + 1, s.len() as int));
        assert(dotted(b.drop_first()) =~= s.subrange(y.len() as int + 1, s.len() as int));
        lemma_dotted_injective(a.drop_first(), b.drop_first());
        assert(a =~= seq![a[0]] + a.drop_first());
        assert(b =~= seq![b[0]] + b.drop_first());
    }
}

/// Four bytes as one number.
fn value_of_bytes(b: &Vec<u8>) -> (r: u64)
    requires
        b@.len() == 4,
    ensures
        r == addr_value(b@),
{
    ((b[0] as u64 * 256 + b[1] as u64) * 256 + b[2] as u64) * 256 + b[3] as u64
}

/// Whether a version 4 address lies in a network, both given as text.
pub fn ipv4_in_cidr(ip: &str, cidr: &str) -> (r: bool)
    ensures
        r == in_cidr(ip@, cidr@),
{
    let ip_chars = chars_of(ip);
    let net_chars = chars_of(cidr);
    let ip_len = ip_chars.len();
    let net_len = net_chars.len();
    let at = next_of(&net_chars, 0, net_len, '/');
    proof {
        assert(ip_chars@.subrange(0, ip_len as int) =~= ip@);
        assert forall|n: Seq<u8>, prefix: nat| #[trigger] is_cidr(cidr@, n, prefix) implies at
            < net_len && cidr@.subrange(0, at as int) == dotted(n) && cidr@.subrange(
            at + 1,
            net_len as int,
        ) == decimal(prefix) by {
            lemma_cidr_parts(cidr@, n, prefix, at as int);
        }
    }
    let a = match dotted_in(&ip_chars, 0, ip_len, 4) {
        Some(a) => a,
        None => {
            return false;
        },
    };
    if at == net_len {
        return false;
    }
    let n = match dotted_in(&net_chars, 0, at, 4) {
        Some(n) => n,
        None => {
            return false;
        },
    };
    let prefix = match number_in(&net_chars, at + 1, net_len, 32) {
        Some(p) => p,
        None => {
            return false;
        },
    };
    let x = value_of_bytes(&a);
    let y = value_of_bytes(&n);
    let shift = (32 - prefix) as u64;
    proof {
        vstd::bits::lemma_u64_shr_is_div(x, shift);
        vstd::bits::lemma_u64_shr_is_div(y, shift);
        assert(cidr@ =~= dotted(n@) + seq!['/'] + decimal(prefix as nat));
        assert(is_ipv4(ip@, a@));
        assert(is_cidr(cidr@, n@, prefix as nat));
        assert forall|a2: Seq<u8>, n2: Seq<u8>, p2: nat|
            #![trigger is_ipv4(ip@, a2), is_cidr(cidr@, n2, p2)]
            is_ipv4(ip@, a2) && is_cidr(cidr@, n2, p2) implies a2 == a@ && n2 == n@ && p2
            == prefix by {
            lemma_dotted_injective(a@, a2);
            lemma_dotted_injective(n@, n2);
            lemma_decimal_injective(prefix as nat, p2);
        }
    }
    (x >> shift) == (y >> shift)
}

/// The address is these four numbers in decimal, in order, with dots between them.
pub proof fn law_dotted(b: Seq<u8>)
    requires
        b.len() == 4,
    ensures
        dotted(b) == decimal(b[0] as nat) + seq!['.'] + decimal(b[1] as nat) + seq!['.'] + decimal(
            b[2] as nat,
        ) + seq!['.'] + decimal(b[3] as nat),
{
    reveal_with_fuel(dotted, 5);
    let c = b.drop_first();
    let d = c.drop_first();
    let e = d.drop_first();
    assert(c[0] == b[1] && d[0] == b[2] && e[0] == b[3]);
    assert(dotted(b) =~= decimal(b[0] as nat) + seq!['.'] + decimal(b[1] as nat) + seq!['.']
        + decimal(b[2] as nat) + seq!['.'] + decimal(b[3] as nat));
}

/// A number in decimal is made of digits, without a zero before the others, and the digits stand
/// for the number.
pub proof fn law_decimal(n: nat)
    ensures
        decimal(n).len() > 0,
        forall|i: int| 0 <= i < decimal(n).len() ==> '0' <= #[trigger] decimal(n)[i] <= '9',
        decimal(n).len() == 1 || decimal(n)[0] != '0',
        value_of(decimal(n)) == n,
{
    lemma_decimal(n);
}

/// A text shows two of the bytes in four digits, the higher half of a byte first, and a colon where
/// more follow.
pub open spec fn group_shown(text: Seq<char>, bytes: Seq<u8>, i: int) -> bool {
    &&& text[5 * i] == hex_char((bytes[2 * i] / 16) as u8)
    &&& text[5 * i + 1] == hex_char((bytes[2 * i] % 16) as u8)
    &&& text[5 * i + 2] == hex_char((bytes[2 * i + 1] / 16) as u8)
    &&& text[5 * i + 3] == hex_char((bytes[2 * i + 1] % 16) as u8)
    &&& 2 * i + 2 < bytes.len() ==> text[5 * i + 4] == ':'
}

/// A version 6 address has four hexadecimal digits for each two of its bytes, the higher half of a
/// byte first, with colons between the groups of four.
#[verifier::spinoff_prover]
pub proof fn law_colon_hex(bytes: Seq<u8>)
    requires
        bytes.len() >= 2,
        bytes.len() % 2 == 0,
    ensures
        2 * colon_hex(bytes).len() + 2 == 5 * bytes.len(),
        forall|i: int|
            0 <= 2 * i < bytes.len() ==> #[trigger] group_shown(colon_hex(bytes), bytes, i),
    decreases bytes.len(),
{
    let text = colon_hex(bytes);
    let n = bytes.len() as int;
    if n > 2 {
        let init = bytes.take(n - 2);
        law_colon_hex(init);
        let before = colon_hex(init);
        let last = seq![':'] + hex2(bytes[n - 2]) + hex2(bytes[n - 1]);
        assert(text =~= before + last);
        assert forall|i: int| 0 <= 2 * i < n implies #[trigger] group_shown(text, bytes, i) by {
            if 2 * i < n - 2 {
                assert(group_shown(before, init, i));
                lemma_group_shown(before, last, init, bytes, i);
            } else {
                let at = before.len() as int;
                assert(2 * i == n - 2 && 5 * i == at + 1);
                assert(text[at + 1] == last[1] && text[at + 2] == last[2]);
                assert(text[at + 3] == last[3] && text[at + 4] == last[4]);
            }
        }
    } else {
        assert forall|i: int| 0 <= 2 * i < n implies #[trigger] group_shown(text, bytes, i) by {
            assert(i == 0);
        }
    }
}

proof fn lemma_group_shown(
    before: Seq<char>,
    last: Seq<char>,
    init: Seq<u8>,
    bytes: Seq<u8>,
    i: int,
)
    requires
        group_shown(before, init, i),
        0 <= 2 * i < init.len(),
        init.len() % 2 == 0,
        2 * before.len() + 2 == 5 * init.len(),
        init == bytes.take(bytes.len() - 2),
        bytes.len() == init.len() + 2,
        last.len() == 5,
        last[0] == ':',
    ensures
        group_shown(before + last, bytes, i),
{
    let text = before + last;
    assert(init[2 * i] == bytes[2 * i]);
    assert(init[2 * i + 1] == bytes[2 * i + 1]);
    assert(5 * i + 3 < before.len());
    assert(text[5 * i] == before[5 * i] && text[5 * i + 1] == before[5 * i + 1]);
    assert(text[5 * i + 2] == before[5 * i + 2] && text[5 * i + 3] == before[5 * i + 3]);
    if 2 * i + 2 < init.len() {
        assert(text[5 * i + 4] == before[5 * i + 4]);
    } else {
        assert(5 * i + 4 == before.len());
        assert(text[5 * i + 4] == last[0]);
    }
}

/// A counter key of version 4 holds the address in its first four bytes, any other in all of them.
pub proof fn law_key_address(ip_version: u8, bytes: Seq<u8>, other: Seq<u8>)
    requires
        bytes.len() == 16,
        other.len() == 16,
    ensures
        ip_version == 4 ==> (key_ip_text(ip_version, bytes) == key_ip_text(ip_version, other) <==> (
        forall|i: int| 0 <= i < 4 ==> #[trigger] bytes[i] == other[i])),
        ip_version != 4 ==> (key_ip_text(ip_version, bytes) == key_ip_text(ip_version, other) <==> (
        forall|i: int| 0 <= i < 16 ==> #[trigger] bytes[i] == other[i])),
        ip_version == 4 ==> !key_ip_text(ip_version, bytes).contains(':'),
        ip_version != 4 ==> key_ip_text(ip_version, bytes).contains(':'),
{
    let a = bytes.take(4);
    let b = other.take(4);
    if ip_version == 4 {
        if forall|i: int| 0 <= i < 4 ==> #[trigger] bytes[i] == other[i] {
            assert(a =~= b);
        }
        if dotted(a) == dotted(b) {
            lemma_dotted_injective(a, b);
            assert forall|i: int| 0 <= i < 4 implies #[trigger] bytes[i] == other[i] by {
                assert(a[i] == b[i]);
            }
        }
        lemma_dotted_chars(a);
    } else {
        law_colon_hex(bytes);
        law_colon_hex(other);
        if forall|i: int| 0 <= i < 16 ==> #[trigger] bytes[i] == other[i] {
            assert(bytes =~= other);
        }
        let text = colon_hex(bytes);
        if colon_hex(other) == text {
            assert forall|i: int| 0 <= i < 16 implies #[trigger] bytes[i] == other[i] by {
                let g = i / 2;
                assert(group_shown(text, bytes, g) && group_shown(text, other, g));
                lemma_hex_char((bytes[i] / 16) as u8);
                lemma_hex_char((bytes[i] % 16) as u8);
                lemma_hex_char((other[i] / 16) as u8);
                lemma_hex_char((other[i] % 16) as u8);
            }
        }
        assert(group_shown(text, bytes, 0));
        assert(text[4] == ':');
    }
}

/// The number that an address of four bytes is.
pub open spec fn number_of(b: Seq<u8>) -> int {
    16777216 * b[0] + 65536 * b[1] + 256 * b[2] + b[3]
}

/// Two numbers lie in the same of the blocks that a size divides all numbers into.
pub open spec fn same_block(a: int, b: int, size: int) -> bool {
    exists|k: int| #[trigger] (k * size) <= a < k * size + size && k * size <= b < k * size + size
}

/// An address lies in a network where both lie in the same block of as many addresses as the
/// prefix leaves open.
pub proof fn law_address_in_network(a: Seq<u8>, n: Seq<u8>, prefix: nat)
    requires
        a.len() == 4,
        n.len() == 4,
        prefix <= 32,
    ensures
        in_cidr(dotted(a), dotted(n) + seq!['/'] + decimal(prefix)) <==> same_block(
            number_of(a),
            number_of(n),
            pow2((32 - prefix) as nat) as int,
        ),
{
    let ip = dotted(a);
    let cidr = dotted(n) + seq!['/'] + decimal(prefix);
    let size = pow2((32 - prefix) as nat) as int;
    lemma_pow2_pos((32 - prefix) as nat);
    assert(is_ipv4(ip, a));
    assert(is_cidr(cidr, n, prefix));
    assert(addr_value(a) == number_of(a) && addr_value(n) == number_of(n)) by (nonlinear_arith)
        requires
            addr_value(a) == ((a[0] * 256 + a[1]) * 256 + a[2]) * 256 + a[3],
            addr_value(n) == ((n[0] * 256 + n[1]) * 256 + n[2]) * 256 + n[3],
            number_of(a) == 16777216 * a[0] + 65536 * a[1] + 256 * a[2] + a[3],
            number_of(n) == 16777216 * n[0] + 65536 * n[1] + 256 * n[2] + n[3],
    ;
    let x = number_of(a);
    let y = number_of(n);
    lemma_fundamental_div_mod(x, size);
    lemma_fundamental_div_mod(y, size);
    if x / size == y / size {
        let k = x / size;
        assert(k * size <= x < k * size + size && k * size <= y < k * size + size)
            by (nonlinear_arith)
            requires
                x == size * (x / size) + x % size,
                y == size * (y / size) + y % size,
                0 <= x % size < size,
                0 <= y % size < size,
                k == x / size,
                k == y / size,
        ;
    }
    if same_block(x, y, size) {
        let k = choose|k: int|
            #[trigger] (k * size) <= x < k * size + size && k * size <= y < k * size + size;
        lemma_block(x, size, k);
        lemma_block(y, size, k);
    }
    if in_cidr(ip, cidr) {
        let (a2, n2, p2) = choose|a2: Seq<u8>, n2: Seq<u8>, p2: nat|
            #![trigger is_ipv4(ip, a2), is_cidr(cidr, n2, p2)]
            is_ipv4(ip, a2) && is_cidr(cidr, n2, p2) && same_network(a2, n2, p2);
        let at = dotted(n).len() as int;
        lemma_dotted_chars(n);
        assert(cidr[at] == '/');
        assert forall|j: int| 0 <= j < at implies cidr[j] != '/' by {
            assert(cidr[j] == dotted(n)[j]);
        }
        lemma_cidr_parts(cidr, n, prefix, at);
        lemma_cidr_parts(cidr, n2, p2, at);
        lemma_dotted_injective(a, a2);
        lemma_dotted_injective(n, n2);
        lemma_decimal_injective(prefix, p2);
    }
}

proof fn lemma_block(x: int, size: int, k: int)
    requires
        size > 0,
        k * size <= x < k * size + size,
    ensures
        x / size == k,
{
    assert(x / size == k) by (nonlinear_arith)
        requires
            size > 0,
            k * size <= x < k * size + size,
    ;
}


} // verus!
