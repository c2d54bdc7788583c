//! Names of ring files, and the text forms of hardware addresses.
use vstd::prelude::*;
use vstd::string::*;
use vstd::utf8::{decode_utf8, encode_utf8, valid_utf8};

use crate::text::{
    chars_of, digits, hex2, hex_char, hex_digit, hex_digit_value, hex_value, is_hex, is_hex_digit,
    law_digits, law_lower_case, lemma_hex_char, lemma_lower_hex, lower, lower_char, push_hex2,
    string_of, text_from_utf8, to_lower,
};

verus! {

// ---------------------------------------------------------------- components

/// Two hexadecimal digits for each byte.
pub open spec fn hex_text(bytes: Seq<u8>) -> Seq<char>
    decreases bytes.len(),
{
    if bytes.len() == 0 {
        Seq::empty()
    } else {
        hex_text(bytes.drop_last()) + hex2(bytes.last())
    }
}

/// What two characters stand for in base 16. A sign may stand in the first place.
pub open spec fn pair_value(hi: char, lo: char) -> Option<u8> {
    if is_hex(hi) && is_hex(lo) {
        Some((hex_value(hi) * 16 + hex_value(lo)) as u8)
    } else if hi == '+' && is_hex(lo) {
        Some(hex_value(lo))
    } else {
        None
    }
}

/// The bytes that the pairs of `s` stand for; a last character without a partner is ignored.
pub open spec fn pair_bytes(s: Seq<char>) -> Option<Seq<u8>>
    decreases s.len(),
{
    if s.len() < 2 {
        Some(Seq::empty())
    } else if s.len() % 2 == 1 {
        pair_bytes(s.drop_last())
    } else {
        match (
            pair_bytes(s.subrange(0, s.len() - 2)),
            pair_value(s[s.len() - 2], s[s.len() - 1]),
        ) {
            (Some(before), Some(b)) => Some(before.push(b)),
            _ => None,
        }
    }
}

/// The text that `s` encodes.
pub open spec fn decoded(s: Seq<char>) -> Option<Seq<char>> {
    if s.len() == 0 || encode_utf8(s).len() % 2 != 0 {
        None
    } else {
        match pair_bytes(s) {
            Some(bytes) if valid_utf8(bytes) => Some(decode_utf8(bytes)),
            _ => None,
        }
    }
}

/// The digits come in pairs but for one last character, which takes an even number of bytes.
pub open spec fn dangling(s: Seq<char>) -> bool {
    s.len() % 2 == 1 && encode_utf8(s).len() % 2 == 0 && pair_bytes(s) is Some
}

/// `input` as a file name component: the hexadecimal digits of its UTF-8 bytes.
pub fn encode_component(input: &str) -> (out: String)
    ensures
        out@ == hex_text(encode_utf8(input@)),
{
    let bytes = input.as_bytes();
    let mut out = String::new();
    let mut i: usize = 0;
    while i < bytes.len()
        invariant
            i <= bytes.len(),
            bytes@ == encode_utf8(input@),
            out@ == hex_text(bytes@.take(i as int)),
        decreases bytes.len() - i,
    {
        push_hex2(&mut out, bytes[i]);
        i += 1;
        assert(bytes@.take(i as int).drop_last() =~= bytes@.take(i - 1));
    }
    assert(bytes@.take(i as int) =~= bytes@);
    out
}

proof fn lemma_pair_bytes_none(s: Seq<char>, n: int)
    requires
        0 <= n <= s.len(),
        n % 2 == 0,
        pair_bytes(s.take(n)) is None,
    ensures
        pair_bytes(s) is None,
    decreases s.len() - n,
{
    if n == s.len() {
        assert(s.take(n) =~= s);
    } else if n + 1 == s.len() {
        assert(s.drop_last() =~= s.take(n));
    } else {
        assert(s.take(n + 2).subrange(0, n) =~= s.take(n));
        lemma_pair_bytes_none(s, n + 2);
    }
}

/// The bytes that the pairs of some characters stand for; a last one without a partner is
/// ignored.
fn decode_pairs(chars: &Vec<char>) -> (res: Option<Vec<u8>>)
    ensures
        match res {
            Some(bytes) => pair_bytes(chars@) == Some(bytes@),
            None => pair_bytes(chars@) is None,
        },
{
    let mut bytes: Vec<u8> = Vec::new();
    let mut i: usize = 0;
    assert(chars@.take(0) =~= Seq::<char>::empty());
    while chars.len() - i > 1
        invariant
            i <= chars.len(),
            i % 2 == 0,
            pair_bytes(chars@.take(i as int)) == Some(bytes@),
        decreases chars.len() - i,
    {
        let hi = chars[i];
        let lo = chars[i + 1];
        assert(chars@.take(i + 2).subrange(0, i as int) =~= chars@.take(i as int));
        let v: u8 = if is_hex_digit(lo) && is_hex_digit(hi) {
            hex_digit_value(hi) * 16 + hex_digit_value(lo)
        } else if is_hex_digit(lo) && hi == '+' {
            hex_digit_value(lo)
        } else {
            assert(pair_bytes(chars@.take(i + 2)) is None);
            proof {
                lemma_pair_bytes_none(chars@, i + 2);
            }
            return None;
        };
        bytes.push(v);
        i += 2;
    }
    proof {
        if i + 1 == chars.len() {
            if chars.len() > 1 {
                assert(chars@.drop_last() =~= chars@.take(i as int));
            } else {
                assert(chars@.take(0) =~= Seq::<char>::empty());
            }
        } else {
            assert(chars@.take(i as int) =~= chars@);
        }
    }
    Some(bytes)
}

/// Whether digits come in pairs but for one last character, which takes an even number of bytes.
pub fn is_dangling(hex: &str) -> (r: bool)
    ensures
        r == dangling(hex@),
{
    let size = hex.as_bytes().len();
    let chars = chars_of(hex);
    chars.len() % 2 == 1 && size % 2 == 0 && decode_pairs(&chars).is_some()
}

/// The text that a file name component encodes, if it is one.
pub fn decode_component(hex: &str) -> (res: Option<String>)
    requires
        !dangling(hex@),
    ensures
        res is Some <==> decoded(hex@) is Some,
        res matches Some(text) ==> text@ == decoded(hex@)->Some_0,
{
    let size = hex.as_bytes().len();
    let chars = chars_of(hex);
    if chars.len() == 0 || size % 2 != 0 {
        return None;
    }
    match decode_pairs(&chars) {
        Some(bytes) => text_from_utf8(bytes),
        None => None,
    }
}

proof fn lemma_hex_text_len(bytes: Seq<u8>)
    ensures
        hex_text(bytes).len() == 2 * bytes.len(),
    decreases bytes.len(),
{
    if bytes.len() > 0 {
        lemma_hex_text_len(bytes.drop_last());
    }
}

proof fn lemma_hex_text_pairs(bytes: Seq<u8>)
    ensures
        pair_bytes(hex_text(bytes)) == Some(bytes),
        forall|i: int| 0 <= i < hex_text(bytes).len() ==> is_hex(#[trigger] hex_text(bytes)[i]),
    decreases bytes.len(),
{
    if bytes.len() > 0 {
        let init = bytes.drop_last();
        let b = bytes.last();
        lemma_hex_text_pairs(init);
        lemma_hex_text_len(init);
        lemma_hex_text_len(bytes);
        lemma_hex_char(b / 16);
        lemma_hex_char(b % 16);
        let s = hex_text(bytes);
        assert(s.subrange(0, s.len() - 2) =~= hex_text(init));
        assert(init.push(b) =~= bytes);
    } else {
        assert(bytes =~= Seq::empty());
    }
}

/// Text that consists of hexadecimal digits takes one byte per character.
proof fn lemma_hex_ascii(s: Seq<char>)
    requires
        forall|i: int| 0 <= i < s.len() ==> is_hex(#[trigger] s[i]),
    ensures
        encode_utf8(s).len() == s.len(),
{
    assert forall|i: int| 0 <= i < s.len() implies (#[trigger] s[i] as u32) < 128 by {
        assert(is_hex(s[i]));
    }
    vstd::utf8::is_ascii_chars_encode_utf8(s);
}

/// A name survives being encoded as a file name component, as long as it is not empty.
pub proof fn law_component_round_trip(name: Seq<char>)
    requires
        name.len() > 0,
    ensures
        !dangling(hex_text(encode_utf8(name))),
        decoded(hex_text(encode_utf8(name))) == Some(name),
{
    let bytes = encode_utf8(name);
    lemma_hex_text_pairs(bytes);
    lemma_hex_text_len(bytes);
    lemma_hex_ascii(hex_text(bytes));
    vstd::utf8::encode_utf8_valid_utf8(name);
    vstd::utf8::encode_utf8_decode_utf8(name);
    if bytes.len() == 0 {
        assert(decode_utf8(bytes).len() == 0);
    }
}

// ---------------------------------------------------------------- hardware addresses

/// `s` without its colons.
pub open spec fn without_colons(s: Seq<char>) -> Seq<char> {
    s.filter(|c: char| c != ':')
}

/// Every character of `s` is a hexadecimal digit.
pub open spec fn all_hex(s: Seq<char>) -> bool {
    forall|i: int| 0 <= i < s.len() ==> is_hex(#[trigger] s[i])
}

/// Twelve digits as six groups of two, separated by colons.
pub open spec fn with_colons(s: Seq<char>) -> Seq<char> {
    Seq::new(
        17,
        |i: int|
            if i % 3 == 2 {
                ':'
            } else {
                s[(i / 3) * 2 + i % 3]
            },
    )
}

/// The twelve lower-case digits of an address, or `None` where it is not one.
pub open spec fn mac_digits(mac: Seq<char>) -> Option<Seq<char>> {
    let compact = lower(without_colons(mac));
    if compact.len() == 12 && all_hex(compact) {
        Some(compact)
    } else {
        None
    }
}

/// All characters are hexadecimal digits.
fn only_hex(v: &Vec<char>) -> (r: bool)
    ensures
        r == all_hex(v@),
{
    let mut i: usize = 0;
    while i < v.len()
        invariant
            i <= v.len(),
            forall|j: int| 0 <= j < i ==> is_hex(#[trigger] v@[j]),
        decreases v.len() - i,
    {
        if !is_hex_digit(v[i]) {
            return false;
        }
        i += 1;
    }
    true
}

/// The twelve lower-case digits of a hardware address, colons left out.
pub fn normalize_mac_hex(mac: &str) -> (res: Option<String>)
    ensures
        res is Some <==> mac_digits(mac@) is Some,
        res matches Some(text) ==> text@ == mac_digits(mac@)->Some_0,
{
    let chars = chars_of(mac);
    let mut compact: Vec<char> = Vec::new();
    let mut i: usize = 0;
    assert(chars@.take(0) =~= Seq::<char>::empty());
    proof {
        reveal(Seq::filter);
        assert(lower(without_colons(chars@.take(0))) =~= Seq::<char>::empty());
    }
    while i < chars.len()
        invariant
            i <= chars.len(),
            chars@ == mac@,
            compact@ == lower(without_colons(chars@.take(i as int))),
        decreases chars.len() - i,
    {
        let c = chars[i];
        let ghost before = without_colons(chars@.take(i as int));
        proof {
            reveal(Seq::filter);
            assert(chars@.take(i + 1).drop_last() =~= chars@.take(i as int));
            assert(without_colons(chars@.take(i + 1)) == if c != ':' {
                before.push(c)
            } else {
                before
            });
            assert(lower(before.push(c)) =~= lower(before).push(lower_char(c)));
        }
        if c != ':' {
            compact.push(to_lower(c));
        }
        i += 1;
    }
    assert(chars@.take(i as int) =~= chars@);
    if compact.len() != 12 || !only_hex(&compact) {
        return None;
    }
    Some(string_of(&compact))
}

/// Twelve hexadecimal digits as a hardware address in lower case.
pub fn mac_hex_to_colon(hex: &str) -> (res: Option<String>)
    ensures
        res is Some <==> hex@.len() == 12 && all_hex(hex@),
        res matches Some(text) ==> text@ == with_colons(lower(hex@)),
{
    let chars = chars_of(hex);
    if chars.len() != 12 || !only_hex(&chars) {
        return None;
    }
    let mut out: Vec<char> = Vec::new();
    let mut i: usize = 0;
    while i < 17
        invariant
            i <= 17,
            chars@ == hex@,
            chars@.len() == 12,
            out@ == with_colons(lower(hex@)).take(i as int),
        decreases 17 - i,
    {
        if i % 3 == 2 {
            out.push(':');
        } else {
            out.push(to_lower(chars[(i / 3) * 2 + i % 3]));
        }
        i += 1;
        assert(out@ =~= with_colons(lower(hex@)).take(i as int));
    }
    assert(out@ =~= with_colons(lower(hex@)));
    Some(string_of(&out))
}

/// The text form of a hardware address.
pub open spec fn mac_text(mac: Seq<u8>) -> Seq<char> {
    with_colons(hex_text(mac))
}

/// The address that `s` is the text form of, in either case.
pub open spec fn mac_of_text(s: Seq<char>) -> Option<Seq<u8>> {
    if s.len() == 17 && forall|i: int|
        0 <= i < 17 ==> if i % 3 == 2 {
            #[trigger] s[i] == ':'
        } else {
            is_hex(s[i])
        } {
        Some(
            Seq::new(
                6,
                |i: int| (hex_value(s[3 * i]) * 16 + hex_value(s[3 * i + 1])) as u8,
            ),
        )
    } else {
        None
    }
}

proof fn lemma_hex_text_at(bytes: Seq<u8>, i: int)
    requires
        0 <= i < bytes.len(),
    ensures
        hex_text(bytes).len() == 2 * bytes.len(),
        hex_text(bytes)[2 * i] == hex_char(bytes[i] / 16),
        hex_text(bytes)[2 * i + 1] == hex_char(bytes[i] % 16),
    decreases bytes.len(),
{
    lemma_hex_text_len(bytes);
    lemma_hex_text_len(bytes.drop_last());
    if i < bytes.len() - 1 {
        lemma_hex_text_at(bytes.drop_last(), i);
    }
}

/// The text form of a hardware address: lower-case digits, separated by colons.
pub fn mac_to_string(mac: &[u8; 6]) -> (s: String)
    ensures
        s@ == mac_text(mac@),
{
    let mut v: Vec<char> = Vec::new();
    let mut i: usize = 0;
    while i < 17
        invariant
            i <= 17,
            v@ == mac_text(mac@).take(i as int),
        decreases 17 - i,
    {
        proof {
            lemma_hex_text_at(mac@, (i / 3) as int);
        }
        if i % 3 == 0 {
            v.push(hex_digit(mac[i / 3] / 16));
        } else if i % 3 == 1 {
            v.push(hex_digit(mac[i / 3] % 16));
        } else {
            v.push(':');
        }
        i += 1;
        assert(v@ =~= mac_text(mac@).take(i as int));
    }
    assert(v@ =~= mac_text(mac@));
    string_of(&v)
}

/// The hardware address that `s` is the text form of.
pub fn mac_from_str(s: &str) -> (res: Option<[u8; 6]>)
    ensures
        res is Some <==> mac_of_text(s@) is Some,
        res matches Some(mac) ==> mac@ == mac_of_text(s@)->Some_0,
{
    let v = chars_of(s);
    if v.len() != 17 {
        return None;
    }
    let mut i: usize = 0;
    while i < 17
        invariant
            i <= 17,
            v@ == s@,
            v@.len() == 17,
            forall|j: int|
                0 <= j < i ==> if j % 3 == 2 {
                    #[trigger] v@[j] == ':'
                } else {
                    is_hex(v@[j])
                },
        decreases 17 - i,
    {
        if i % 3 == 2 {
            if v[i] != ':' {
                return None;
            }
        } else if !is_hex_digit(v[i]) {
            return None;
        }
        i += 1;
    }
    assert(is_hex(v@[0]) && is_hex(v@[1]) && is_hex(v@[3]) && is_hex(v@[4]) && is_hex(v@[6])
        && is_hex(v@[7]) && is_hex(v@[9]) && is_hex(v@[10]) && is_hex(v@[12]) && is_hex(v@[13])
        && is_hex(v@[15]) && is_hex(v@[16]));
    let mac = [
        hex_digit_value(v[0]) * 16 + hex_digit_value(v[1]),
        hex_digit_value(v[3]) * 16 + hex_digit_value(v[4]),
        hex_digit_value(v[6]) * 16 + hex_digit_value(v[7]),
        hex_digit_value(v[9]) * 16 + hex_digit_value(v[10]),
        hex_digit_value(v[12]) * 16 + hex_digit_value(v[13]),
        hex_digit_value(v[15]) * 16 + hex_digit_value(v[16]),
    ];
    assert(mac@ =~= mac_of_text(s@)->Some_0);
    Some(mac)
}

/// An address read back from its text form is the same address.
pub proof fn law_mac_text_round_trip(mac: Seq<u8>)
    requires
        mac.len() == 6,
    ensures
        mac_of_text(mac_text(mac)) == Some(mac),
{
    let s = mac_text(mac);
    assert forall|i: int| 0 <= i < 17 implies if i % 3 == 2 {
        #[trigger] s[i] == ':'
    } else {
        is_hex(s[i])
    } by {
        lemma_hex_text_at(mac, i / 3);
        lemma_hex_char(mac[i / 3] / 16);
        lemma_hex_char(mac[i / 3] % 16);
    }
    assert forall|i: int| 0 <= i < 6 implies (hex_value(s[3 * i]) * 16 + hex_value(
        s[3 * i + 1],
    )) as u8 == #[trigger] mac[i] by {
        lemma_hex_text_at(mac, i);
        lemma_hex_char(mac[i] / 16);
        lemma_hex_char(mac[i] % 16);
        assert((3 * i) % 3 == 0 && (3 * i) / 3 == i);
        assert((3 * i + 1) % 3 == 1 && (3 * i + 1) / 3 == i);
        assert(s[3 * i] == hex_text(mac)[2 * i]);
        assert(s[3 * i + 1] == hex_text(mac)[2 * i + 1]);
    }
    assert(mac_of_text(s)->Some_0 =~= mac);
}

proof fn lemma_filter_colons(s: Seq<char>, n: int)
    requires
        s.len() == 12,
        all_hex(s),
        0 <= n <= 17,
    ensures
        without_colons(with_colons(s).take(n)) == s.take(n - n / 3),
    decreases n,
{
    reveal(Seq::filter);
    let t = with_colons(s);
    if n == 0 {
        assert(t.take(0) =~= Seq::empty());
        assert(s.take(0) =~= Seq::empty());
    } else {
        lemma_filter_colons(s, n - 1);
        assert(t.take(n).drop_last() =~= t.take(n - 1));
        let i = n - 1;
        if i % 3 == 2 {
            assert(n - n / 3 == i - i / 3);
        } else {
            let k = (i / 3) * 2 + i % 3;
            assert(k == i - i / 3);
            assert(is_hex(s[k]));
            assert(s.take(k + 1) =~= s.take(k).push(s[k]));
        }
    }
}

/// The digits of an address written with colons are the digits it was written from.
pub proof fn law_mac_digits_round_trip(digits: Seq<char>)
    requires
        digits.len() == 12,
        all_hex(digits),
    ensures
        mac_digits(with_colons(lower(digits))) == Some(lower(digits)),
{
    let d = lower(digits);
    assert forall|i: int| 0 <= i < 12 implies is_hex(#[trigger] d[i]) && lower_char(d[i]) == d[i] by {
        lemma_lower_hex(digits[i]);
    }
    lemma_filter_colons(d, 17);
    assert(with_colons(d).take(17) =~= with_colons(d));
    assert(d.take(12) =~= d);
    assert(lower(d) =~= d);
}

// ---------------------------------------------------------------- file names

/// `name` has the extension `ring`, and something in front of it.
pub open spec fn is_ring_name(name: Seq<char>) -> bool {
    name.len() > 5 && name.subrange(name.len() - 5, name.len() as int) == seq![
        '.',
        'r',
        'i',
        'n',
        'g',
    ]
}

/// `name` is the name of a ring file.
pub fn is_ring_file(name: &str) -> (r: bool)
    ensures
        r == is_ring_name(name@),
{
    let v = chars_of(name);
    let n = v.len();
    if n <= 5 {
        return false;
    }
    let r = v[n - 5] == '.' && v[n - 4] == 'r' && v[n - 3] == 'i' && v[n - 2] == 'n' && v[n - 1]
        == 'g';
    proof {
        let tail = v@.subrange(n - 5, n as int);
        if r {
            assert(tail =~= seq!['.', 'r', 'i', 'n', 'g']);
        } else {
            assert(tail[0] == v@[n - 5] && tail[1] == v@[n - 4] && tail[2] == v@[n - 3] && tail[3]
                == v@[n - 2] && tail[4] == v@[n - 1]);
        }
    }
    r
}

/// The part of a ring file's name in front of the extension.
pub fn ring_stem(name: &str) -> (stem: String)
    requires
        is_ring_name(name@),
    ensures
        stem@ == name@.subrange(0, name@.len() - 5),
{
    let mut v = chars_of(name);
    let n = v.len();
    v.truncate(n - 5);
    string_of(&v)
}

/// The index of the last `-` in `s`.
pub open spec fn is_last_dash(s: Seq<char>, at: int) -> bool {
    &&& 0 <= at < s.len()
    &&& s[at] == '-'
    &&& forall|j: int| at < j < s.len() ==> s[j] != '-'
}

/// What stands before and behind the last `-` of `stem`.
pub fn split_at_last_dash(stem: &str) -> (res: Option<(String, String)>)
    ensures
        res is Some <==> stem@.contains('-'),
        res matches Some((before, behind)) ==> ({
            &&& is_last_dash(stem@, before@.len() as int)
            &&& before@ == stem@.subrange(0, before@.len() as int)
            &&& behind@ == stem@.subrange(before@.len() as int + 1, stem@.len() as int)
        }),
{
    let v = chars_of(stem);
    let mut i: usize = v.len();
    while i > 0
        invariant
            i <= v.len(),
            v@ == stem@,
            forall|j: int| i <= j < v.len() ==> v@[j] != '-',
        decreases i,
    {
        i -= 1;
        if v[i] == '-' {
            let mut before = v;
            let tail = before.split_off(i);
            let mut behind: Vec<char> = Vec::new();
            let mut j: usize = 1;
            while j < tail.len()
                invariant
                    1 <= j <= tail.len(),
                    behind@ == tail@.subrange(1, j as int),
                decreases tail.len() - j,
            {
                behind.push(tail[j]);
                j += 1;
                assert(behind@ =~= tail@.subrange(1, j as int));
            }
            assert(behind@ =~= stem@.subrange(i + 1, stem@.len() as int));
            assert(stem@[i as int] == '-');
            return Some((string_of(&before), string_of(&behind)));
        }
    }
    None
}

/// The text of an address is what its digits give back: a device keeps its name where its
/// history is kept by the digits.
pub proof fn law_mac_text_from_digits(mac: Seq<u8>)
    requires
        mac.len() == 6,
    ensures
        mac_digits(mac_text(mac)) is Some,
        with_colons(mac_digits(mac_text(mac))->0) == mac_text(mac),
{
    lemma_hex_text_len(mac);
    lemma_hex_text_pairs(mac);
    lemma_hex_text_lower(mac);
    law_mac_digits_round_trip(hex_text(mac));
}

proof fn lemma_hex_text_lower(bytes: Seq<u8>)
    ensures
        lower(hex_text(bytes)) == hex_text(bytes),
    decreases bytes.len(),
{
    if bytes.len() > 0 {
        lemma_hex_text_lower(bytes.drop_last());
        let b = bytes.last();
        let init = hex_text(bytes.drop_last());
        lemma_hex_char(b / 16);
        lemma_hex_char(b % 16);
        assert forall|i: int| 0 <= i < hex_text(bytes).len() implies lower_char(
            #[trigger] hex_text(bytes)[i],
        ) == hex_text(bytes)[i] by {
            if i < init.len() {
                assert(hex_text(bytes)[i] == init[i]);
                assert(lower(init)[i] == init[i]);
            }
        }
        assert(lower(hex_text(bytes)) =~= hex_text(bytes));
    } else {
        assert(lower(hex_text(bytes)) =~= hex_text(bytes));
    }
}

/// Bytes are written as two digits each, the higher half first.
pub proof fn law_two_digits_each(bytes: Seq<u8>, i: int)
    requires
        0 <= i < bytes.len(),
    ensures
        hex_text(bytes).len() == 2 * bytes.len(),
        hex_text(bytes)[2 * i] == digits()[(bytes[i] / 16) as int],
        hex_text(bytes)[2 * i + 1] == digits()[(bytes[i] % 16) as int],
{
    lemma_hex_text_at(bytes, i);
    law_digits(bytes[i] / 16, '0');
    law_digits(bytes[i] % 16, '0');
}

/// The text of a hardware address has two digits for each of the six bytes, the higher half first,
/// with colons between them.
pub proof fn law_mac_text_layout(mac: Seq<u8>, i: int)
    requires
        mac.len() == 6,
        0 <= i < 6,
    ensures
        mac_text(mac).len() == 17,
        mac_text(mac)[3 * i] == digits()[(mac[i] / 16) as int],
        mac_text(mac)[3 * i + 1] == digits()[(mac[i] % 16) as int],
        i < 5 ==> mac_text(mac)[3 * i + 2] == ':',
{
    law_two_digits_each(mac, i);
}

/// The case of the digits does not matter where a hardware address is read.
pub proof fn law_mac_in_any_case(s: Seq<char>)
    ensures
        mac_of_text(lower(s)) == mac_of_text(s),
{
    let l = lower(s);
    assert forall|c: char| #[trigger] is_hex(lower_char(c)) == is_hex(c) && (is_hex(c) ==> hex_value(
        lower_char(c),
    ) == hex_value(c)) && (lower_char(c) == ':' <==> c == ':') by {}
    assert forall|i: int| 0 <= i < s.len() implies #[trigger] l[i] == lower_char(s[i]) by {}
    if mac_of_text(s) is Some {
        assert forall|i: int| 0 <= i < 17 implies if i % 3 == 2 {
            #[trigger] l[i] == ':'
        } else {
            is_hex(l[i])
        } by {
            assert(s[i] == s[i]);
        }
        assert(mac_of_text(l)->0 =~= mac_of_text(s)->0) by {
            assert forall|i: int| 0 <= i < 6 implies mac_of_text(l)->0[i] == mac_of_text(
                s,
            )->0[i] by {
                assert((3 * i) % 3 == 0 && (3 * i + 1) % 3 == 1);
                assert(is_hex(s[3 * i]) && is_hex(s[3 * i + 1]));
                assert(is_hex(lower_char(s[3 * i])) && is_hex(lower_char(s[3 * i + 1])));
                assert(l[3 * i] == lower_char(s[3 * i]) && l[3 * i + 1] == lower_char(
                    s[3 * i + 1],
                ));
            }
        }
    }
    if mac_of_text(l) is Some {
        assert forall|i: int| 0 <= i < 17 implies if i % 3 == 2 {
            #[trigger] s[i] == ':'
        } else {
            is_hex(s[i])
        } by {
            assert(l[i] == lower_char(s[i]));
            assert(is_hex(lower_char(s[i])) == is_hex(s[i]));
        }
    }
}

/// Whether and where there are colons does not matter for the digits of a hardware address, nor
/// does their case.
pub proof fn law_mac_digits_without_colons(a: Seq<char>, b: Seq<char>)
    requires
        lower(a.filter(|c: char| c != ':')) == lower(b.filter(|c: char| c != ':')),
    ensures
        mac_digits(a) == mac_digits(b),
        mac_digits(a) matches Some(d) ==> d.len() == 12 && d == lower(d) && d == lower(
            a.filter(|c: char| c != ':'),
        ),
{
    assert(without_colons(a) == a.filter(|c: char| c != ':'));
    assert(without_colons(b) == b.filter(|c: char| c != ':'));
    if let Some(d) = mac_digits(a) {
        law_lower_case(without_colons(a), 0);
    }
}


} // verus!
