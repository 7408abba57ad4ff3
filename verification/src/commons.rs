//! Small shared helpers: hexadecimal text for binary fields, domain-name
//! syntax, zone extraction, random identifiers.

use vstd::prelude::*;

verus! {

/// The character standing for a value below 16 in upper-case hexadecimal.
pub open spec fn nibble_char(n: u8) -> char {
    if n == 0 {
        '0'
    } else if n == 1 {
        '1'
    } else if n == 2 {
        '2'
    } else if n == 3 {
        '3'
    } else if n == 4 {
        '4'
    } else if n == 5 {
        '5'
    } else if n == 6 {
        '6'
    } else if n == 7 {
        '7'
    } else if n == 8 {
        '8'
    } else if n == 9 {
        '9'
    } else if n == 10 {
        'A'
    } else if n == 11 {
        'B'
    } else if n == 12 {
        'C'
    } else if n == 13 {
        'D'
    } else if n == 14 {
        'E'
    } else {
        'F'
    }
}

/// Upper-case hexadecimal text of a byte string, two digits per byte.
pub open spec fn spec_to_hex(s: Seq<u8>) -> Seq<char>
    decreases s.len(),
{
    if s.len() == 0 {
        Seq::<char>::empty()
    } else {
        seq![nibble_char(s[0] / 16), nibble_char(s[0] % 16)] + spec_to_hex(
            s.subrange(1, s.len() as int),
        )
    }
}

pub open spec fn is_hex_digit(c: char) -> bool {
    ('0' <= c && c <= '9') || ('a' <= c && c <= 'f') || ('A' <= c && c <= 'F')
}

/// The value of a hexadecimal digit; other characters give 0.
pub open spec fn hex_val(c: char) -> u8 {
    if '0' <= c && c <= '9' {
        (c as u32 - 48) as u8
    } else if 'a' <= c && c <= 'f' {
        (c as u32 - 87) as u8
    } else if 'A' <= c && c <= 'F' {
        (c as u32 - 55) as u8
    } else {
        0
    }
}

/// Bytes read from hexadecimal text: `None` on odd length or any character
/// that is no hexadecimal digit.
pub open spec fn spec_from_hex(s: Seq<char>) -> Option<Seq<u8>>
    decreases s.len(),
{
    if s.len() == 0 {
        Some(Seq::<u8>::empty())
    } else if s.len() == 1 {
        None
    } else if !is_hex_digit(s[0]) || !is_hex_digit(s[1]) {
        None
    } else {
        match spec_from_hex(s.subrange(2, s.len() as int)) {
            None => None,
            Some(rest) => Some(
                seq![(hex_val(s[0]) * 16 + hex_val(s[1])) as u8] + rest,
            ),
        }
    }
}

/// Every character of hexadecimal text is an upper-case hexadecimal digit;
/// in particular none is a separator of the transaction text format.
pub proof fn lemma_to_hex_digits(s: Seq<u8>)
    ensures
        spec_to_hex(s).len() == 2 * s.len(),
        forall|i: int|
            0 <= i < spec_to_hex(s).len() ==> is_hex_digit(#[trigger] spec_to_hex(s)[i])
                && spec_to_hex(s)[i] != ';' && spec_to_hex(s)[i] != '=',
    decreases s.len(),
{
    if s.len() > 0 {
        lemma_to_hex_digits(s.subrange(1, s.len() as int));
    }
}

/// Hexadecimal text reads back to the bytes it was written from.
pub proof fn lemma_hex_round_trip(s: Seq<u8>)
    ensures
        spec_from_hex(spec_to_hex(s)) == Some(s),
    decreases s.len(),
{
    if s.len() == 0 {
        assert(spec_to_hex(s).len() == 0);
        assert(spec_from_hex(spec_to_hex(s)) == Some(Seq::<u8>::empty()));
        assert(s =~= Seq::<u8>::empty());
    } else {
        let tail = s.subrange(1, s.len() as int);
        lemma_hex_round_trip(tail);
        lemma_to_hex_digits(tail);
        let h = spec_to_hex(s);
        assert(h[0] == nibble_char(s[0] / 16));
        assert(h[1] == nibble_char(s[0] % 16));
        assert(is_hex_digit(h[0]));
        assert(is_hex_digit(h[1]));
        assert(hex_val(h[0]) == s[0] / 16);
        assert(hex_val(h[1]) == s[0] % 16);
        assert(h.subrange(2, h.len() as int) =~= spec_to_hex(tail));
        let rest = spec_from_hex(h.subrange(2, h.len() as int))->Some_0;
        assert(rest == tail);
        assert(seq![(hex_val(h[0]) * 16 + hex_val(h[1])) as u8] + rest =~= s);
    }
}

/// One upper-case hexadecimal digit as a string slice.
fn nibble_str(n: u8) -> (r: &'static str)
    requires
        n < 16,
    ensures
        r@ == seq![nibble_char(n)],
        r@.len() == 1,
{
    proof {
        reveal_strlit("0");
        reveal_strlit("1");
        reveal_strlit("2");
        reveal_strlit("3");
        reveal_strlit("4");
        reveal_strlit("5");
        reveal_strlit("6");
        reveal_strlit("7");
        reveal_strlit("8");
        reveal_strlit("9");
        reveal_strlit("A");
        reveal_strlit("B");
        reveal_strlit("C");
        reveal_strlit("D");
        reveal_strlit("E");
        reveal_strlit("F");
    }
    let r = match n {
        0 => "0",
        1 => "1",
        2 => "2",
        3 => "3",
        4 => "4",
        5 => "5",
        6 => "6",
        7 => "7",
        8 => "8",
        9 => "9",
        10 => "A",
        11 => "B",
        12 => "C",
        13 => "D",
        14 => "E",
        _ => "F",
    };
    proof {
        assert(r@ =~= seq![nibble_char(n)]);
    }
    r
}

proof fn lemma_to_hex_push(s: Seq<u8>, x: u8)
    ensures
        spec_to_hex(s.push(x)) == spec_to_hex(s) + seq![
            nibble_char(x / 16),
            nibble_char(x % 16),
        ],
    decreases s.len(),
{
    let p = s.push(x);
    assert(p.len() == s.len() + 1);
    let pair = seq![nibble_char(x / 16), nibble_char(x % 16)];
    if s.len() == 0 {
        assert(p[0] == x);
        assert(p.subrange(1, 1) =~= Seq::<u8>::empty());
        assert(spec_to_hex(p) == seq![nibble_char(p[0] / 16), nibble_char(p[0] % 16)]
            + spec_to_hex(p.subrange(1, 1)));
        assert(spec_to_hex(p) =~= spec_to_hex(s) + pair);
    } else {
        assert(p[0] == s[0]);
        assert(p.subrange(1, s.len() + 1int) =~= s.subrange(1, s.len() as int).push(x));
        lemma_to_hex_push(s.subrange(1, s.len() as int), x);
        assert(spec_to_hex(p) == seq![nibble_char(p[0] / 16), nibble_char(p[0] % 16)]
            + spec_to_hex(p.subrange(1, s.len() + 1int)));
        assert(spec_to_hex(p.subrange(1, s.len() + 1int)) == spec_to_hex(
            s.subrange(1, s.len() as int),
        ) + pair);
        assert(spec_to_hex(s) == seq![nibble_char(s[0] / 16), nibble_char(s[0] % 16)]
            + spec_to_hex(s.subrange(1, s.len() as int)));
        assert(spec_to_hex(p) =~= spec_to_hex(s) + pair);
    }
}

/// Writes a byte string as upper-case hexadecimal text.
pub fn to_hex(buf: &[u8]) -> (r: String)
    ensures
        r@ == spec_to_hex(buf@),
{
    let mut result = String::new();
    let n = buf.len();
    let mut i: usize = 0;
    proof {
        assert(buf@.subrange(0, 0) =~= Seq::<u8>::empty());
    }
    while i < n
        invariant
            i <= n,
            n == buf@.len(),
            result@ == spec_to_hex(buf@.subrange(0, i as int)),
        decreases n - i,
    {
        let b = buf[i];
        result.append(nibble_str(b / 16));
        result.append(nibble_str(b % 16));
        proof {
            assert(buf@.subrange(0, i + 1) =~= buf@.subrange(0, i as int).push(buf@[i as int]));
            lemma_to_hex_push(buf@.subrange(0, i as int), buf@[i as int]);
        }
        i = i + 1;
    }
    proof {
        assert(buf@.subrange(0, n as int) =~= buf@);
    }
    result
}

/// Checks whether a character is a hexadecimal digit, by code point.
fn hex_digit_exec(c: char) -> (r: bool)
    ensures
        r == is_hex_digit(c),
{
    let v = c as u32;
    (48 <= v && v <= 57) || (97 <= v && v <= 102) || (65 <= v && v <= 70)
}

fn hex_val_exec(c: char) -> (r: u8)
    requires
        is_hex_digit(c),
    ensures
        r == hex_val(c),
        r < 16,
{
    let v = c as u32;
    if 48 <= v && v <= 57 {
        (v - 48) as u8
    } else if 97 <= v && v <= 102 {
        (v - 87) as u8
    } else {
        (v - 55) as u8
    }
}

/// Reads upper- or lower-case hexadecimal text back into bytes; `None` on
/// odd length or a character that is no hexadecimal digit.
pub fn from_hex(string: &str) -> (r: Option<Vec<u8>>)
    ensures
        match r {
            Some(v) => spec_from_hex(string@) == Some(v@),
            None => spec_from_hex(string@) is None,
        },
{
    let n = string.unicode_len();
    let mut acc: Vec<u8> = Vec::new();
    let mut i: usize = 0;
    proof {
        assert(string@.subrange(0, n as int) =~= string@);
    }
    while n - i >= 2
        invariant
            i <= n,
            n == string@.len(),
            spec_from_hex(string@) is Some <==> spec_from_hex(string@.subrange(i as int, n as int)) is Some,
            spec_from_hex(string@) is Some ==> spec_from_hex(string@)->Some_0 == acc@ + spec_from_hex(
                string@.subrange(i as int, n as int),
            )->Some_0,
        decreases n - i,
    {
        let ghost rest = string@.subrange(i as int, n as int);
        let c0 = string.get_char(i);
        let c1 = string.get_char(i + 1);
        assert(rest[0] == c0 && rest[1] == c1);
        if !hex_digit_exec(c0) || !hex_digit_exec(c1) {
            assert(spec_from_hex(rest) is None);
            return None;
        }
        let v = hex_val_exec(c0) * 16 + hex_val_exec(c1);
        proof {
            assert(rest.subrange(2, rest.len() as int) =~= string@.subrange(i + 2, n as int));
            if spec_from_hex(string@.subrange(i + 2, n as int)) is Some {
                let r2 = spec_from_hex(string@.subrange(i + 2, n as int))->Some_0;
                assert(spec_from_hex(rest)->Some_0 == seq![v] + r2);
                assert(acc@ + (seq![v] + r2) =~= acc@.push(v) + r2);
            }
        }
        acc.push(v);
        i = i + 2;
    }
    if i < n {
        // One character is left over: the length is odd.
        let ghost rest = string@.subrange(i as int, n as int);
        assert(rest.len() == 1);
        assert(spec_from_hex(rest) is None);
        return None;
    }
    proof {
        assert(string@.subrange(n as int, n as int) =~= Seq::<char>::empty());
        assert(spec_from_hex(string@.subrange(n as int, n as int)) == Some(Seq::<u8>::empty()));
        if spec_from_hex(string@) is Some {
            assert(acc@ + Seq::<u8>::empty() =~= acc@);
        }
    }
    Some(acc)
}

pub open spec fn is_ascii_alnum(c: char) -> bool {
    ('0' <= c && c <= '9') || ('a' <= c && c <= 'z') || ('A' <= c && c <= 'Z')
}

/// The walk of `check_domain` from position `i` on, carrying whether the
/// previous character was a dot or a hyphen.
pub open spec fn check_domain_rec(
    s: Seq<char>,
    i: int,
    last_dot: bool,
    last_hyphen: bool,
    allow_dots: bool,
) -> bool
    decreases s.len() - i,
{
    if i < 0 || i >= s.len() {
        true
    } else {
        let c = s[i];
        if allow_dots && c == '.' {
            !last_dot && check_domain_rec(s, i + 1, true, last_hyphen, allow_dots)
        } else if c == '-' {
            !last_hyphen && check_domain_rec(s, i + 1, last_dot, true, allow_dots)
        } else {
            is_ascii_alnum(c) && check_domain_rec(s, i + 1, false, false, allow_dots)
        }
    }
}

/// Name syntax: lower- or upper-case ASCII alphanumerics plus `-` and,
/// where allowed, `.`; no leading or trailing `.` or `-`, no `..`, no `--`.
pub open spec fn spec_check_domain(s: Seq<char>, allow_dots: bool) -> bool {
    s.len() == 0 || (s[0] != '.' && s[0] != '-' && s[s.len() - 1] != '.' && s[s.len() - 1] != '-'
        && check_domain_rec(s, 0, false, false, allow_dots))
}

pub fn check_domain(name: &str, allow_dots: bool) -> (r: bool)
    ensures
        r == spec_check_domain(name@, allow_dots),
{
    let n = name.unicode_len();
    if n == 0 {
        return true;
    }
    let first = name.get_char(0);
    let last = name.get_char(n - 1);
    if first == '.' || first == '-' || last == '.' || last == '-' {
        return false;
    }
    let mut last_dot = false;
    let mut last_hyphen = false;
    let mut i: usize = 0;
    while i < n
        invariant
            i <= n,
            n == name@.len(),
            check_domain_rec(name@, 0, false, false, allow_dots) == check_domain_rec(
                name@,
                i as int,
                last_dot,
                last_hyphen,
                allow_dots,
            ),
        decreases n - i,
    {
        let c = name.get_char(i);
        if allow_dots && c == '.' {
            if last_dot {
                return false;
            }
            last_dot = true;
        } else if c == '-' {
            if last_hyphen {
                return false;
            }
            last_hyphen = true;
        } else {
            last_dot = false;
            last_hyphen = false;
            let v = c as u32;
            let alnum = (48 <= v && v <= 57) || (97 <= v && v <= 122) || (65 <= v && v <= 90);
            if !alnum {
                return false;
            }
        }
        i = i + 1;
    }
    true
}

/// The zone of a name: what follows the last dot, or the whole name when it
/// has no dot.
pub open spec fn spec_domain_zone(s: Seq<char>) -> Seq<char>
    decreases s.len(),
{
    if s.len() == 0 {
        Seq::<char>::empty()
    } else if s.last() == '.' {
        Seq::<char>::empty()
    } else {
        spec_domain_zone(s.drop_last()).push(s.last())
    }
}

proof fn lemma_domain_zone_no_dot(s: Seq<char>)
    requires
        forall|j: int| 0 <= j < s.len() ==> s[j] != '.',
    ensures
        spec_domain_zone(s) == s,
    decreases s.len(),
{
    if s.len() > 0 {
        lemma_domain_zone_no_dot(s.drop_last());
        assert(spec_domain_zone(s) =~= s);
    }
}

proof fn lemma_domain_zone_after_dot(s: Seq<char>, i: int)
    requires
        0 <= i < s.len(),
        s[i] == '.',
        forall|j: int| i < j < s.len() ==> s[j] != '.',
    ensures
        spec_domain_zone(s) == s.subrange(i + 1, s.len() as int),
    decreases s.len(),
{
    if i == s.len() - 1 {
        assert(spec_domain_zone(s) =~= s.subrange(i + 1, s.len() as int));
    } else {
        lemma_domain_zone_after_dot(s.drop_last(), i);
        assert(s.drop_last().subrange(i + 1, s.len() - 1) =~= s.subrange(i + 1, s.len() - 1));
        assert(spec_domain_zone(s) =~= s.subrange(i + 1, s.len() as int));
    }
}

pub fn get_domain_zone(domain: &str) -> (r: String)
    ensures
        r@ == spec_domain_zone(domain@),
{
    let n = domain.unicode_len();
    let mut dot: usize = 0;
    let mut found = false;
    let mut i: usize = 0;
    while i < n
        invariant
            i <= n,
            n == domain@.len(),
            found ==> dot < i && domain@[dot as int] == '.' && forall|j: int|
                dot < j < i ==> domain@[j] != '.',
            !found ==> forall|j: int| 0 <= j < i ==> domain@[j] != '.',
        decreases n - i,
    {
        if domain.get_char(i) == '.' {
            dot = i;
            found = true;
        }
        i = i + 1;
    }
    if found {
        let part = domain.substring_char(dot + 1, n);
        proof {
            lemma_domain_zone_after_dot(domain@, dot as int);
        }
        part.to_owned()
    } else {
        proof {
            lemma_domain_zone_no_dot(domain@);
        }
        domain.to_owned()
    }
}

/// The lower-case form of an upper-case ASCII letter; any other character
/// stays itself.
pub open spec fn lower_char(c: char) -> char {
    if 'A' <= c && c <= 'Z' {
        "abcdefghijklmnopqrstuvwxyz"@[c as u32 - 65]
    } else {
        c
    }
}

/// ASCII lower-casing of a character sequence.
pub open spec fn spec_lower(s: Seq<char>) -> Seq<char> {
    Seq::new(s.len(), |i: int| lower_char(s[i]))
}

/// Lower-cases the ASCII letters of a string; other characters pass
/// through unchanged.
pub fn ascii_lowercase(s: &str) -> (r: String)
    ensures
        r@ == spec_lower(s@),
{
    let alphabet = "abcdefghijklmnopqrstuvwxyz";
    proof {
        reveal_strlit("abcdefghijklmnopqrstuvwxyz");
        assert(alphabet@.len() == 26);
    }
    let n = s.unicode_len();
    let mut result = String::new();
    let mut i: usize = 0;
    while i < n
        invariant
            i <= n,
            n == s@.len(),
            result@.len() == i,
            alphabet@.len() == 26,
            alphabet.is_ascii(),
            alphabet@ == "abcdefghijklmnopqrstuvwxyz"@,
            forall|j: int| 0 <= j < i ==> result@[j] == lower_char(s@[j]),
        decreases n - i,
    {
        let c = s.get_char(i);
        let v = c as u32;
        if 65 <= v && v <= 90 {
            let idx = (v - 65) as usize;
            let one = alphabet.substring_ascii(idx, idx + 1);
            assert(one@[0] == alphabet@[idx as int]);
            result.append(one);
        } else {
            let one = s.substring_char(i, i + 1);
            assert(one@[0] == s@[i as int]);
            result.append(one);
        }
        i = i + 1;
    }
    proof {
        assert(result@ =~= spec_lower(s@));
    }
    result
}

/// Compares two string slices for equality of contents.
pub fn str_eq(a: &str, b: &str) -> (r: bool)
    ensures
        r == (a@ == b@),
{
    let n = a.unicode_len();
    if n != b.unicode_len() {
        proof {
            assert(a@ != b@);
        }
        return false;
    }
    let mut i: usize = 0;
    while i < n
        invariant
            i <= n,
            n == a@.len(),
            n == b@.len(),
            forall|j: int| 0 <= j < i ==> a@[j] == b@[j],
        decreases n - i,
    {
        if a.get_char(i) != b.get_char(i) {
            return false;
        }
        i = i + 1;
    }
    proof {
        assert(a@ =~= b@);
    }
    true
}

/// Relies on `chrono::Utc::now` (`timestamp`): the wall-clock seconds;
/// nothing is promised of the value.
#[verifier::external_body]
pub(crate) fn wall_clock_seconds() -> (r: i64) {
    chrono::Utc::now().timestamp()
}

/// The wall-clock seconds, clamped into the range the validator accepts.
pub fn current_timestamp() -> (r: i64)
    ensures
        -crate::constants::MAX_TIMESTAMP <= r <= crate::constants::MAX_TIMESTAMP,
{
    let t = wall_clock_seconds();
    if t < -crate::constants::MAX_TIMESTAMP {
        -crate::constants::MAX_TIMESTAMP
    } else if t > crate::constants::MAX_TIMESTAMP {
        crate::constants::MAX_TIMESTAMP
    } else {
        t
    }
}

/// Relies on `rand::random::<u32>`: a fresh random number; nothing is
/// promised of its value.
#[verifier::external_body]
pub(crate) fn random_u32() -> (r: u32) {
    rand::random::<u32>()
}

/// The alphabet that `random_string` draws from.
pub open spec fn random_charset() -> Seq<char> {
    "abcdefghijklmnopqrstuvwxyzABCDEFGHIJKLMNOPQRSTUVWXYZ0123456789!?"@
}

/// Generates a random string of the given length over a fixed alphabet of
/// 64 characters.
pub fn random_string(length: usize) -> (r: String)
    ensures
        r@.len() == length,
        forall|i: int| 0 <= i < r@.len() ==> random_charset().contains(#[trigger] r@[i]),
{
    let chars = "abcdefghijklmnopqrstuvwxyzABCDEFGHIJKLMNOPQRSTUVWXYZ0123456789!?";
    proof {
        reveal_strlit("abcdefghijklmnopqrstuvwxyzABCDEFGHIJKLMNOPQRSTUVWXYZ0123456789!?");
        assert(chars@.len() == 64);
    }
    let mut result = String::new();
    let mut i: usize = 0;
    while i < length
        invariant
            i <= length,
            result@.len() == i,
            chars@ == random_charset(),
            chars@.len() == 64,
            chars.is_ascii(),
            forall|j: int| 0 <= j < result@.len() ==> random_charset().contains(#[trigger] result@[j]),
        decreases length - i,
    {
        let position: usize = (random_u32() % 64) as usize;
        let one = chars.substring_ascii(position, position + 1);
        assert(one@[0] == chars@[position as int]);
        result.append(one);
        proof {
            assert(random_charset().contains(chars@[position as int]));
        }
        i = i + 1;
    }
    result
}

} // verus!
