//! Text helpers: trimming, colours written in hexadecimal, Base64, decimal numbers.
use vstd::prelude::*;
use vstd::string::*;
use vstd::utf8::{encode_utf8, is_char_boundary};

verus! {

/// Appends one character to `s` (std's `String::push`).
#[verifier::external_body]
pub(crate) fn push_char(s: &mut String, c: char)
    ensures
        final(s)@ == old(s)@.push(c),
{
    s.push(c);
}

/// Whether `c` has the Unicode White_Space property, as `char::is_whitespace` defines it.
pub open spec fn is_ws(c: char) -> bool {
    let u = c as u32;
    (0x09 <= u <= 0x0D) || u == 0x20 || u == 0x85 || u == 0xA0 || u == 0x1680 || (0x2000 <= u
        <= 0x200A) || u == 0x2028 || u == 0x2029 || u == 0x202F || u == 0x205F || u == 0x3000
}

/// `s` without its leading white space.
pub open spec fn trim_start(s: Seq<char>) -> Seq<char>
    decreases s.len(),
{
    if s.len() > 0 && is_ws(s[0]) {
        trim_start(s.drop_first())
    } else {
        s
    }
}

/// `s` without its trailing white space.
pub open spec fn trim_end(s: Seq<char>) -> Seq<char>
    decreases s.len(),
{
    if s.len() > 0 && is_ws(s.last()) {
        trim_end(s.drop_last())
    } else {
        s
    }
}

/// `s` without leading and trailing white space, as `str::trim` gives it.
pub open spec fn trim(s: Seq<char>) -> Seq<char> {
    trim_end(trim_start(s))
}

/// `s` without its leading `#` characters, as `trim_start_matches('#')` gives it.
pub open spec fn strip_hashes(s: Seq<char>) -> Seq<char>
    decreases s.len(),
{
    if s.len() > 0 && s[0] == '#' {
        strip_hashes(s.drop_first())
    } else {
        s
    }
}

/// Whether `c` is white space.
pub fn is_whitespace_char(c: char) -> (r: bool)
    ensures
        r == is_ws(c),
{
    let u = c as u32;
    (0x09 <= u && u <= 0x0D) || u == 0x20 || u == 0x85 || u == 0xA0 || u == 0x1680 || (0x2000
        <= u && u <= 0x200A) || u == 0x2028 || u == 0x2029 || u == 0x202F || u == 0x205F || u
        == 0x3000
}

proof fn lemma_trim_start_skip(s: Seq<char>, k: int)
    requires
        0 <= k <= s.len(),
        forall|j: int| 0 <= j < k ==> is_ws(#[trigger] s[j]),
    ensures
        trim_start(s) == trim_start(s.subrange(k, s.len() as int)),
    decreases k,
{
    if k > 0 {
        lemma_trim_start_skip(s.drop_first(), k - 1);
        assert(s.drop_first().subrange(k - 1, s.drop_first().len() as int) =~= s.subrange(
            k,
            s.len() as int,
        ));
    } else {
        assert(s.subrange(0, s.len() as int) =~= s);
    }
}

proof fn lemma_trim_end_skip(s: Seq<char>, k: int)
    requires
        0 <= k <= s.len(),
        forall|j: int| k <= j < s.len() ==> is_ws(#[trigger] s[j]),
    ensures
        trim_end(s) == trim_end(s.subrange(0, k)),
    decreases s.len() - k,
{
    if k < s.len() {
        lemma_trim_end_skip(s.drop_last(), k);
        assert(s.drop_last().subrange(0, k) =~= s.subrange(0, k));
    } else {
        assert(s.subrange(0, s.len() as int) =~= s);
    }
}

proof fn lemma_strip_skip(s: Seq<char>, k: int)
    requires
        0 <= k <= s.len(),
        forall|j: int| 0 <= j < k ==> #[trigger] s[j] == '#',
    ensures
        strip_hashes(s) == strip_hashes(s.subrange(k, s.len() as int)),
    decreases k,
{
    if k > 0 {
        lemma_strip_skip(s.drop_first(), k - 1);
        assert(s.drop_first().subrange(k - 1, s.drop_first().len() as int) =~= s.subrange(
            k,
            s.len() as int,
        ));
    } else {
        assert(s.subrange(0, s.len() as int) =~= s);
    }
}

/// `input` without leading and trailing white space.
pub fn trim_str(input: &str) -> (r: &str)
    ensures
        r@ == trim(input@),
{
    let n = input.unicode_len();
    let mut start: usize = 0;
    while start < n && is_whitespace_char(input.get_char(start))
        invariant
            n == input@.len(),
            start <= n,
            forall|j: int| 0 <= j < start ==> is_ws(#[trigger] input@[j]),
        decreases n - start,
    {
        start += 1;
    }
    proof {
        lemma_trim_start_skip(input@, start as int);
    }
    let ghost rest = input@.subrange(start as int, n as int);
    assert(trim_start(rest) == rest);
    let mut end: usize = n;
    while end > start && is_whitespace_char(input.get_char(end - 1))
        invariant
            n == input@.len(),
            start <= end <= n,
            forall|j: int| end <= j < n ==> is_ws(#[trigger] input@[j]),
        decreases end,
    {
        end -= 1;
    }
    proof {
        lemma_trim_end_skip(rest, end - start);
        assert(rest.subrange(0, end - start) =~= input@.subrange(start as int, end as int));
        let t = input@.subrange(start as int, end as int);
        assert(trim_end(t) == t);
    }
    input.substring_char(start, end)
}

/// `input` without its leading `#` characters.
pub fn strip_hashes_str(input: &str) -> (r: &str)
    ensures
        r@ == strip_hashes(input@),
{
    let n = input.unicode_len();
    let mut k: usize = 0;
    while k < n && input.get_char(k) == '#'
        invariant
            n == input@.len(),
            k <= n,
            forall|j: int| 0 <= j < k ==> #[trigger] input@[j] == '#',
        decreases n - k,
    {
        k += 1;
    }
    proof {
        lemma_strip_skip(input@, k as int);
        let t = input@.subrange(k as int, n as int);
        assert(strip_hashes(t) == t);
    }
    input.substring_char(k, n)
}

/// The value of a hexadecimal digit byte (0-9, a-f, A-F).
pub open spec fn hex_digit(b: u8) -> Option<u8> {
    if 48 <= b <= 57 {
        Some((b - 48) as u8)
    } else if 97 <= b <= 102 {
        Some((b - 87) as u8)
    } else if 65 <= b <= 70 {
        Some((b - 55) as u8)
    } else {
        None
    }
}

/// The number written by two bytes in base 16 as `u8::from_str_radix` reads them:
/// two digits, or a plus sign and one digit.
pub open spec fn hex_pair(b0: u8, b1: u8) -> Option<u8> {
    if b0 == 43 {
        hex_digit(b1)
    } else {
        match (hex_digit(b0), hex_digit(b1)) {
            (Some(h), Some(l)) => Some((h * 16 + l) as u8),
            _ => None,
        }
    }
}

fn hex_digit_value(b: u8) -> (r: Option<u8>)
    ensures
        r == hex_digit(b),
{
    if 48 <= b && b <= 57 {
        Some(b - 48)
    } else if 97 <= b && b <= 102 {
        Some(b - 87)
    } else if 65 <= b && b <= 70 {
        Some(b - 55)
    } else {
        None
    }
}

/// Two bytes read as a number in base 16.
pub fn hex_pair_value(b0: u8, b1: u8) -> (r: Option<u8>)
    ensures
        r == hex_pair(b0, b1),
{
    if b0 == 43 {
        hex_digit_value(b1)
    } else {
        match (hex_digit_value(b0), hex_digit_value(b1)) {
            (Some(h), Some(l)) => Some(h * 16 + l),
            _ => None,
        }
    }
}

/// The characters of a colour once white space and leading `#` are removed.
pub open spec fn color_digits(input: Seq<char>) -> Seq<char> {
    strip_hashes(trim(input))
}

/// Whether `parse_hex_color` slices `input` inside a character (where std's
/// string slicing panics).
pub open spec fn color_slices_char(input: Seq<char>) -> bool {
    let b = encode_utf8(color_digits(input));
    b.len() == 6 && (!is_char_boundary(b, 2) || (hex_pair(b[0], b[1]) is Some
        && !is_char_boundary(b, 4)))
}

/// The messages of `parse_hex_color`: wrong length, then a bad red, green or blue pair.
pub open spec fn length_message() -> Seq<char> {
    "attendu format hex sur 6 caractères, ex: #aabbcc"@
}

pub open spec fn red_message() -> Seq<char> {
    "valeur rouge invalide"@
}

pub open spec fn green_message() -> Seq<char> {
    "valeur verte invalide"@
}

pub open spec fn blue_message() -> Seq<char> {
    "valeur bleue invalide"@
}

/// What `parse_hex_color` gives for `input`: the three bytes of six hexadecimal
/// digits, or the message of the first thing wrong.
pub open spec fn spec_parse_hex_color(input: Seq<char>) -> Result<(u8, u8, u8), Seq<char>> {
    let b = encode_utf8(color_digits(input));
    if b.len() != 6 {
        Err(length_message())
    } else {
        match hex_pair(b[0], b[1]) {
            None => Err(red_message()),
            Some(r) => match hex_pair(b[2], b[3]) {
                None => Err(green_message()),
                Some(g) => match hex_pair(b[4], b[5]) {
                    None => Err(blue_message()),
                    Some(bl) => Ok((r, g, bl)),
                },
            },
        }
    }
}

/// Reads a colour written `#rrggbb` (white space around and any number of leading
/// `#` allowed; a digit pair may also be a plus sign and one digit).
pub fn parse_hex_color(input: &str) -> (r: Result<(u8, u8, u8), &'static str>)
    requires
        !color_slices_char(input@),
    ensures
        match (r, spec_parse_hex_color(input@)) {
            (Ok(c), Ok(d)) => c == d,
            (Err(e), Err(m)) => e@ == m,
            _ => false,
        },
{
    let trimmed = strip_hashes_str(trim_str(input));
    let bytes = trimmed.as_bytes();
    if trimmed.len() != 6 {
        return Err("attendu format hex sur 6 caractères, ex: #aabbcc");
    }
    let r = match hex_pair_value(bytes[0], bytes[1]) {
        Some(v) => v,
        None => {
            return Err("valeur rouge invalide");
        },
    };
    let g = match hex_pair_value(bytes[2], bytes[3]) {
        Some(v) => v,
        None => {
            return Err("valeur verte invalide");
        },
    };
    let b = match hex_pair_value(bytes[4], bytes[5]) {
        Some(v) => v,
        None => {
            return Err("valeur bleue invalide");
        },
    };
    Ok((r, g, b))
}

} // verus!

verus! {

/// The lowercase hexadecimal digit of `d` (below 16).
pub open spec fn hex_char(d: int) -> char {
    if d < 10 {
        (48 + d) as char
    } else {
        (87 + d) as char
    }
}

fn hex_char_of(d: u8) -> (c: char)
    requires
        d < 16,
    ensures
        c == hex_char(d as int),
{
    if d < 10 {
        (48 + d) as char
    } else {
        (87 + d) as char
    }
}

/// A colour written `#rrggbb` with lowercase digits.
pub open spec fn color_hex(r: u8, g: u8, b: u8) -> Seq<char> {
    seq![
        '#',
        hex_char(r as int / 16),
        hex_char(r as int % 16),
        hex_char(g as int / 16),
        hex_char(g as int % 16),
        hex_char(b as int / 16),
        hex_char(b as int % 16),
    ]
}

/// Writes a colour as `#rrggbb` with lowercase hexadecimal digits.
pub fn color_to_hex(r: u8, g: u8, b: u8) -> (s: String)
    ensures
        s@ == color_hex(r, g, b),
{
    let mut s = String::new();
    push_char(&mut s, '#');
    push_char(&mut s, hex_char_of(r / 16));
    push_char(&mut s, hex_char_of(r % 16));
    push_char(&mut s, hex_char_of(g / 16));
    push_char(&mut s, hex_char_of(g % 16));
    push_char(&mut s, hex_char_of(b / 16));
    push_char(&mut s, hex_char_of(b % 16));
    assert(s@ =~= color_hex(r, g, b));
    s
}

proof fn lemma_hex_char_pair(v: u8)
    ensures
        hex_pair(hex_char(v as int / 16) as u8, hex_char(v as int % 16) as u8) == Some(v),
        !is_ws(hex_char(v as int / 16)),
        !is_ws(hex_char(v as int % 16)),
        hex_char(v as int / 16) != '#',
        (hex_char(v as int / 16) as u32) < 128,
        (hex_char(v as int % 16) as u32) < 128,
{
}

/// A colour written by `color_to_hex` reads back as the same colour.
pub proof fn lemma_parse_color_hex(r: u8, g: u8, b: u8)
    ensures
        !color_slices_char(color_hex(r, g, b)),
        spec_parse_hex_color(color_hex(r, g, b)) == Ok::<(u8, u8, u8), Seq<char>>((r, g, b)),
{
    let s = color_hex(r, g, b);
    lemma_hex_char_pair(r);
    lemma_hex_char_pair(g);
    lemma_hex_char_pair(b);
    assert(!is_ws(s[0]));
    assert(trim_start(s) == s);
    assert(s.last() == hex_char(b as int % 16));
    assert(trim_end(s) == s);
    let d = s.drop_first();
    assert(strip_hashes(d) == d);
    assert(strip_hashes(s) == d);
    assert(color_digits(s) == d);
    assert(vstd::utf8::is_ascii_chars(d));
    vstd::utf8::is_ascii_chars_encode_utf8(d);
    let bytes = encode_utf8(d);
    assert(bytes.len() == 6);
    assert(bytes[0] == d[0] as u8);
    assert(bytes[1] == d[1] as u8);
    assert(bytes[2] == d[2] as u8);
    assert(bytes[3] == d[3] as u8);
    assert(bytes[4] == d[4] as u8);
    assert(bytes[5] == d[5] as u8);
    vstd::utf8::encode_utf8_valid_utf8(d);
    vstd::utf8::is_char_boundary_iff_not_is_continuation_byte(bytes, 2);
    vstd::utf8::is_char_boundary_iff_not_is_continuation_byte(bytes, 4);
}

/// The hexadecimal digit of `d` (below 16), in uppercase or lowercase.
pub open spec fn hex_char_in(d: int, upper: bool) -> char {
    if d < 10 {
        (48 + d) as char
    } else if upper {
        (55 + d) as char
    } else {
        (87 + d) as char
    }
}

/// The six digits of a colour, all in uppercase or all in lowercase.
pub open spec fn color_digits_in(r: u8, g: u8, b: u8, upper: bool) -> Seq<char> {
    seq![
        hex_char_in(r as int / 16, upper),
        hex_char_in(r as int % 16, upper),
        hex_char_in(g as int / 16, upper),
        hex_char_in(g as int % 16, upper),
        hex_char_in(b as int / 16, upper),
        hex_char_in(b as int % 16, upper),
    ]
}

proof fn lemma_hex_char_in_pair(v: u8, upper: bool)
    ensures
        hex_pair(hex_char_in(v as int / 16, upper) as u8, hex_char_in(v as int % 16, upper) as u8)
            == Some(v),
        !is_ws(hex_char_in(v as int / 16, upper)),
        !is_ws(hex_char_in(v as int % 16, upper)),
        hex_char_in(v as int / 16, upper) != '#',
        (hex_char_in(v as int / 16, upper) as u32) < 128,
        (hex_char_in(v as int % 16, upper) as u32) < 128,
{
}

proof fn lemma_trim_around(before: Seq<char>, core: Seq<char>, after: Seq<char>)
    requires
        forall|i: int| 0 <= i < before.len() ==> is_ws(#[trigger] before[i]),
        forall|i: int| 0 <= i < after.len() ==> is_ws(#[trigger] after[i]),
        core.len() > 0,
        !is_ws(core[0]),
        !is_ws(core.last()),
    ensures
        trim(before + core + after) == core,
{
    let s = before + core + after;
    let nb = before.len() as int;
    let nc = core.len() as int;
    assert forall|j: int| 0 <= j < nb implies is_ws(#[trigger] s[j]) by {
        assert(s[j] == before[j]);
    }
    lemma_trim_start_skip(s, nb);
    let t = s.subrange(nb, s.len() as int);
    assert(t =~= core + after);
    assert(t[0] == core[0]);
    assert(trim_start(t) == t);
    assert forall|j: int| nc <= j < t.len() implies is_ws(#[trigger] t[j]) by {
        assert(t[j] == after[j - nc]);
    }
    lemma_trim_end_skip(t, nc);
    assert(t.subrange(0, nc) =~= core);
    assert(trim_end(core) == core);
}

proof fn lemma_strip_hash_run(hashes: nat, d: Seq<char>)
    requires
        d.len() > 0,
        d[0] != '#',
    ensures
        strip_hashes(Seq::new(hashes, |i: int| '#') + d) == d,
{
    let core = Seq::new(hashes, |i: int| '#') + d;
    assert forall|j: int| 0 <= j < hashes implies #[trigger] core[j] == '#' by {}
    lemma_strip_skip(core, hashes as int);
    assert(core.subrange(hashes as int, core.len() as int) =~= d);
    assert(strip_hashes(d) == d);
}

/// A colour written with six hexadecimal digits, in uppercase or lowercase, after
/// any number of `#` and between any white space, reads back as that colour.
pub proof fn lemma_parse_color_forms(
    r: u8,
    g: u8,
    b: u8,
    upper: bool,
    hashes: nat,
    before: Seq<char>,
    after: Seq<char>,
)
    requires
        forall|i: int| 0 <= i < before.len() ==> is_ws(#[trigger] before[i]),
        forall|i: int| 0 <= i < after.len() ==> is_ws(#[trigger] after[i]),
    ensures
        ({
            let s = before + (Seq::new(hashes, |i: int| '#') + color_digits_in(r, g, b, upper))
                + after;
            &&& !color_slices_char(s)
            &&& spec_parse_hex_color(s) == Ok::<(u8, u8, u8), Seq<char>>((r, g, b))
        }),
{
    let d = color_digits_in(r, g, b, upper);
    let core = Seq::new(hashes, |i: int| '#') + d;
    let s = before + core + after;
    lemma_hex_char_in_pair(r, upper);
    lemma_hex_char_in_pair(g, upper);
    lemma_hex_char_in_pair(b, upper);
    assert(core.last() == d[5]);
    assert(core[0] == '#' || core[0] == d[0]);
    lemma_trim_around(before, core, after);
    lemma_strip_hash_run(hashes, d);
    assert(color_digits(s) == d);
    assert(vstd::utf8::is_ascii_chars(d));
    vstd::utf8::is_ascii_chars_encode_utf8(d);
    let bytes = encode_utf8(d);
    assert(bytes.len() == 6);
    assert(bytes[0] == d[0] as u8);
    assert(bytes[1] == d[1] as u8);
    assert(bytes[2] == d[2] as u8);
    assert(bytes[3] == d[3] as u8);
    assert(bytes[4] == d[4] as u8);
    assert(bytes[5] == d[5] as u8);
    vstd::utf8::encode_utf8_valid_utf8(d);
    vstd::utf8::is_char_boundary_iff_not_is_continuation_byte(bytes, 2);
    vstd::utf8::is_char_boundary_iff_not_is_continuation_byte(bytes, 4);
}

/// The decimal digit character of `d` (below 10).
pub open spec fn digit_char(d: int) -> char {
    (48 + d) as char
}

/// `n` written in decimal, without leading zeros.
pub open spec fn decimal(n: nat) -> Seq<char>
    decreases n,
{
    if n < 10 {
        seq![digit_char(n as int)]
    } else {
        decimal(n / 10).push(digit_char((n % 10) as int))
    }
}

/// Appends `n` written in decimal to `s`.
pub fn push_decimal(s: &mut String, n: u32)
    ensures
        final(s)@ == old(s)@ + decimal(n as nat),
    decreases n,
{
    if n >= 10 {
        push_decimal(s, n / 10);
    }
    let d = (n % 10) as u8;
    push_char(s, (48 + d) as char);
    assert(final(s)@ =~= old(s)@ + decimal(n as nat)) by {
        if n >= 10 {
            assert(old(s)@ + decimal(n as nat) =~= old(s)@ + decimal((n / 10) as nat) + seq![
                digit_char((n % 10) as int),
            ]);
        }
    };
}

/// The Base64 symbol of a 6-bit value: A-Z, a-z, 0-9, + and /.
pub open spec fn b64_symbol(v: int) -> char {
    if v < 26 {
        (65 + v) as char
    } else if v < 52 {
        (71 + v) as char
    } else if v < 62 {
        (v - 4) as char
    } else if v == 62 {
        '+'
    } else {
        '/'
    }
}

fn b64_symbol_of(v: u32) -> (c: char)
    requires
        v < 64,
    ensures
        c == b64_symbol(v as int),
{
    if v < 26 {
        (65 + v as u8) as char
    } else if v < 52 {
        (71 + v as u8) as char
    } else if v < 62 {
        (v as u8 - 4) as char
    } else if v == 62 {
        '+'
    } else {
        '/'
    }
}

/// The four 6-bit groups of a 24-bit number, most significant first.
pub open spec fn b64_groups(n: int) -> Seq<char> {
    seq![
        b64_symbol(n / 262144),
        b64_symbol((n / 4096) % 64),
        b64_symbol((n / 64) % 64),
        b64_symbol(n % 64),
    ]
}

/// The Base64 text of the first `q` whole 3-byte chunks of `data`.
pub open spec fn b64_chunks(data: Seq<u8>, q: int) -> Seq<char>
    decreases q,
{
    if q <= 0 {
        Seq::empty()
    } else {
        let i = 3 * (q - 1);
        b64_chunks(data, q - 1) + b64_groups(data[i] * 65536 + data[i + 1] * 256 + data[i + 2])
    }
}

/// The Base64 text of the last 1 or 2 bytes of `data`, padded with `=`.
pub open spec fn b64_tail(data: Seq<u8>) -> Seq<char> {
    let r = data.len() % 3;
    let i = data.len() - r;
    if r == 1 {
        let g = b64_groups(data[i] * 65536);
        seq![g[0], g[1], '=', '=']
    } else if r == 2 {
        let g = b64_groups(data[i] * 65536 + data[i + 1] * 256);
        seq![g[0], g[1], g[2], '=']
    } else {
        Seq::empty()
    }
}

/// Standard Base64 (RFC 4648, with padding) of `data`.
pub open spec fn base64(data: Seq<u8>) -> Seq<char> {
    b64_chunks(data, data.len() as int / 3) + b64_tail(data)
}

proof fn lemma_b64_shifts(n: u32)
    requires
        n < 0x100_0000,
    ensures
        (n >> 18u32) as int == n as int / 262144,
        (n >> 12u32 & 0x3F) as int == (n as int / 4096) % 64,
        (n >> 6u32 & 0x3F) as int == (n as int / 64) % 64,
        (n & 0x3F) as int == n as int % 64,
        (n >> 18u32) < 64,
{
    assert((n >> 18u32) == n / 262144) by (bit_vector);
    assert((n >> 12u32 & 0x3F) == (n / 4096) % 64) by (bit_vector);
    assert((n >> 6u32 & 0x3F) == (n / 64) % 64) by (bit_vector);
    assert((n & 0x3F) == n % 64) by (bit_vector);
    assert(n < 0x100_0000 ==> (n >> 18u32) < 64) by (bit_vector);
}

proof fn lemma_b64_pack(b0: u8, b1: u8, b2: u8)
    ensures
        ((b0 as u32) << 16u32 | (b1 as u32) << 8u32 | b2 as u32) as int == b0 * 65536 + b1 * 256
            + b2,
        ((b0 as u32) << 16u32 | (b1 as u32) << 8u32 | b2 as u32) < 0x100_0000,
{
    assert(((b0 as u32) << 16u32 | (b1 as u32) << 8u32 | b2 as u32) == (b0 as u32) * 65536 + (
    b1 as u32) * 256 + (b2 as u32)) by (bit_vector);
    assert(((b0 as u32) << 16u32 | (b1 as u32) << 8u32 | b2 as u32) < 0x100_0000) by (bit_vector);
}

/// Appends the Base64 symbols of the 6-bit groups of `n` selected by `count` (2, 3 or 4).
fn push_groups(out: &mut String, n: u32, count: usize)
    requires
        n < 0x100_0000,
        2 <= count <= 4,
    ensures
        final(out)@ == old(out)@ + b64_groups(n as int).take(count as int),
{
    proof {
        lemma_b64_shifts(n);
    }
    push_char(out, b64_symbol_of(n >> 18));
    push_char(out, b64_symbol_of(n >> 12 & 0x3F));
    if count >= 3 {
        push_char(out, b64_symbol_of(n >> 6 & 0x3F));
    }
    if count >= 4 {
        push_char(out, b64_symbol_of(n & 0x3F));
    }
    assert(final(out)@ =~= old(out)@ + b64_groups(n as int).take(count as int));
}

/// `data` in standard Base64 with `=` padding.
pub fn encode_base64(data: &[u8]) -> (out: String)
    ensures
        out@ == base64(data@),
{
    let mut out = String::new();
    let mut i: usize = 0;
    while data.len() - i >= 3
        invariant
            i % 3 == 0,
            i <= data@.len(),
            out@ == b64_chunks(data@, i as int / 3),
        decreases data@.len() - i,
    {
        proof {
            lemma_b64_pack(data@[i as int], data@[i + 1], data@[i + 2]);
        }
        let n = (data[i] as u32) << 16 | (data[i + 1] as u32) << 8 | data[i + 2] as u32;
        push_groups(&mut out, n, 4);
        proof {
            assert(b64_groups(n as int).take(4) =~= b64_groups(n as int));
            assert((i + 3) as int / 3 == i as int / 3 + 1);
        }
        i += 3;
    }
    proof {
        assert(i as int / 3 == data@.len() as int / 3);
        assert(data@.len() - i == data@.len() % 3);
    }
    let rest = data.len() - i;
    if rest == 1 {
        proof {
            lemma_b64_pack(data@[i as int], 0, 0);
        }
        let n = (data[i] as u32) << 16 | (0u8 as u32) << 8 | 0u8 as u32;
        push_groups(&mut out, n, 2);
        push_char(&mut out, '=');
        push_char(&mut out, '=');
    } else if rest == 2 {
        proof {
            lemma_b64_pack(data@[i as int], data@[i + 1], 0);
        }
        let n = (data[i] as u32) << 16 | (data[i + 1] as u32) << 8 | 0u8 as u32;
        push_groups(&mut out, n, 3);
        push_char(&mut out, '=');
    }
    assert(out@ =~= base64(data@));
    out
}

/// `q` groups of three bytes become `4 * q` symbols.
pub proof fn lemma_b64_chunks_len(data: Seq<u8>, q: int)
    requires
        q >= 0,
    ensures
        b64_chunks(data, q).len() == 4 * q,
    decreases q,
{
    if q > 0 {
        lemma_b64_chunks_len(data, q - 1);
    }
}

/// Base64 turns every started group of three bytes into four characters.
pub proof fn lemma_base64_len(data: Seq<u8>)
    ensures
        base64(data).len() == 4 * ((data.len() + 2) / 3),
{
    lemma_b64_chunks_len(data, data.len() as int / 3);
}

} // verus!

verus! {

/// Whether `parse_hex_color` would slice `input` inside a character; see
/// `color_slices_char`.
pub fn slices_inside_char(input: &str) -> (r: bool)
    ensures
        r == color_slices_char(input@),
{
    let digits = strip_hashes_str(trim_str(input));
    let bytes = digits.as_bytes();
    assert(digits.spec_bytes() == encode_utf8(color_digits(input@)));
    if digits.len() != 6 {
        return false;
    }
    let red = hex_pair_value(bytes[0], bytes[1]);
    !digits.is_char_boundary(2) || (red.is_some() && !digits.is_char_boundary(4))
}

/// Whether reading all three digit pairs at once slices `input` inside a character.
pub open spec fn color_split_inside_char(input: Seq<char>) -> bool {
    let b = encode_utf8(color_digits(input));
    b.len() == 6 && (!is_char_boundary(b, 2) || !is_char_boundary(b, 4))
}

/// Whether `hex_to_color32` would slice `input` inside a character; see
/// `color_split_inside_char`.
pub fn splits_inside_char(input: &str) -> (r: bool)
    ensures
        r == color_split_inside_char(input@),
{
    let digits = strip_hashes_str(trim_str(input));
    let bytes = digits.as_bytes();
    assert(digits.spec_bytes() == encode_utf8(color_digits(input@)));
    bytes.len() == 6 && (!digits.is_char_boundary(2) || !digits.is_char_boundary(4))
}

/// The colour written `#rrggbb` in `input`, or `fallback` where `input` is no such
/// colour.
pub fn hex_to_color32(input: &str, fallback: (u8, u8, u8)) -> (r: (u8, u8, u8))
    requires
        !color_split_inside_char(input@),
    ensures
        r == match spec_parse_hex_color(input@) {
            Ok(c) => c,
            Err(_) => fallback,
        },
{
    let digits = strip_hashes_str(trim_str(input));
    let bytes = digits.as_bytes();
    if digits.len() == 6 {
        if let (Some(r), Some(g), Some(b)) = (
            hex_pair_value(bytes[0], bytes[1]),
            hex_pair_value(bytes[2], bytes[3]),
            hex_pair_value(bytes[4], bytes[5]),
        ) {
            return (r, g, b);
        }
    }
    fallback
}

} // verus!

verus! {

/// Whether `path` splits into components alike on every platform and ends in a
/// plain name: it is not empty, holds no backslash or `:` and does not start with `//`
/// (which could start a prefix on Windows), and does not end in `/` or `.`.
pub open spec fn plain_path(path: Seq<char>) -> bool {
    &&& path.len() > 0
    &&& forall|i: int| 0 <= i < path.len() ==> #[trigger] path[i] != '\\' && path[i] != ':'
    &&& !(path.len() >= 2 && path[0] == '/' && path[1] == '/')
    &&& path.last() != '/'
    &&& path.last() != '.'
}

/// What follows the last `/` of `path` (all of it where it has none).
pub open spec fn after_last_slash(path: Seq<char>) -> Seq<char>
    decreases path.len(),
{
    if path.len() == 0 || path.last() == '/' {
        Seq::empty()
    } else {
        after_last_slash(path.drop_last()).push(path.last())
    }
}

/// The final component of `path`, as std's `Path::new(path).file_name()` finds it,
/// read back as text. std splits a path at `/` on every platform, and on Windows
/// also at a backslash, where `:` and a leading `//` may start a prefix; so which
/// component is final depends on the platform, except for a `plain_path`, whose
/// final component is what follows its last `/`. Whatever the platform, a
/// component is a non-empty piece of the path (std slices it out of the path).
#[verifier::external_body]
fn file_name_of(path: &str) -> (r: Option<&str>)
    ensures
        r matches Some(n) ==> n@.len() > 0 && exists|i: int|
            0 <= i && i + n@.len() <= path@.len() && #[trigger] path@.subrange(i, i + n@.len())
                == n@,
        r is None ==> !plain_path(path@),
        r matches Some(n) ==> (plain_path(path@) ==> n@ == after_last_slash(path@)),
{
    std::path::Path::new(path).file_name().and_then(|n| n.to_str())
}

/// The label shown for a chosen picture named `name`.
pub open spec fn image_label(name: Seq<char>) -> Seq<char> {
    "Sélectionnée: "@ + name
}

/// The label of a chosen picture: its file name where the path has one, else the
/// whole (trimmed) path.
pub fn label_for(file_name: Option<&str>, trimmed: &str) -> (r: String)
    ensures
        r@ == image_label(
            match file_name {
                Some(n) => n@,
                None => trimmed@,
            },
        ),
{
    let mut s = String::from_str("Sélectionnée: ");
    match file_name {
        Some(n) => s.append(n),
        None => s.append(trimmed),
    }
    s
}

/// The label of the picture chosen at `path_str`: its file name, which for a
/// `plain_path` is what follows the last `/`; on any path, the trimmed path or a
/// non-empty piece of it.
pub fn selected_image_label(path_str: &str) -> (r: String)
    ensures
        plain_path(trim(path_str@)) ==> r@ == image_label(after_last_slash(trim(path_str@))),
        r@ == image_label(trim(path_str@)) || exists|i: int, j: int|
            0 <= i < j <= trim(path_str@).len() && r@ == image_label(
                #[trigger] trim(path_str@).subrange(i, j),
            ),
{
    let trimmed = trim_str(path_str);
    let name = file_name_of(trimmed);
    proof {
        if let Some(n) = name {
            let i = choose|i: int|
                0 <= i && i + n@.len() <= trimmed@.len() && #[trigger] trimmed@.subrange(
                    i,
                    i + n@.len(),
                ) == n@;
            assert(0 <= i < i + n@.len() <= trim(path_str@).len());
            assert(trim(path_str@).subrange(i, i + n@.len()) == n@);
        }
    }
    label_for(name, trimmed)
}

} // verus!

verus! {

/// The 6-bit value of a Base64 symbol; 0 for anything else, padding included.
pub open spec fn b64_value(c: char) -> int {
    let u = c as int;
    if 65 <= u <= 90 {
        u - 65
    } else if 97 <= u <= 122 {
        u - 71
    } else if 48 <= u <= 57 {
        u + 4
    } else if c == '+' {
        62
    } else if c == '/' {
        63
    } else {
        0
    }
}

/// The 24-bit number written by four Base64 symbols.
pub open spec fn b64_quad(c0: char, c1: char, c2: char, c3: char) -> int {
    b64_value(c0) * 262144 + b64_value(c1) * 4096 + b64_value(c2) * 64 + b64_value(c3)
}

/// The bytes of the 24-bit number `n` of a group whose last symbols are `c2`, `c3`:
/// one byte before `==`, two before `=`, three otherwise.
pub open spec fn b64_bytes(n: int, c2: char, c3: char) -> Seq<u8> {
    if c2 == '=' {
        seq![(n / 65536) as u8]
    } else if c3 == '=' {
        seq![(n / 65536) as u8, ((n / 256) % 256) as u8]
    } else {
        seq![(n / 65536) as u8, ((n / 256) % 256) as u8, (n % 256) as u8]
    }
}

/// Decoding of standard Base64 (RFC 4648, with padding), four symbols at a time.
pub open spec fn b64_decode(s: Seq<char>) -> Seq<u8>
    decreases s.len(),
{
    if s.len() < 4 {
        Seq::empty()
    } else {
        b64_bytes(b64_quad(s[0], s[1], s[2], s[3]), s[2], s[3]) + b64_decode(
            s.subrange(4, s.len() as int),
        )
    }
}

proof fn lemma_b64_decode_group(s: Seq<char>)
    requires
        s.len() == 4,
    ensures
        b64_decode(s) == b64_bytes(b64_quad(s[0], s[1], s[2], s[3]), s[2], s[3]),
{
    assert(b64_decode(s.subrange(4, 4)) =~= Seq::<u8>::empty());
    assert(b64_decode(s) =~= b64_bytes(b64_quad(s[0], s[1], s[2], s[3]), s[2], s[3]));
}

proof fn lemma_b64_digits(n: int)
    requires
        0 <= n < 16777216,
    ensures
        0 <= n / 262144 < 64,
        (n / 262144) * 262144 + ((n / 4096) % 64) * 4096 + ((n / 64) % 64) * 64 + n % 64 == n,
{
}

proof fn lemma_b64_bytes_of(d0: u8, d1: u8, d2: u8)
    ensures
        ({
            let n = d0 * 65536 + d1 * 256 + d2;
            n / 65536 == d0 && (n / 256) % 256 == d1 && n % 256 == d2
        }),
{
}

proof fn lemma_b64_value_symbol(v: int)
    requires
        0 <= v < 64,
    ensures
        b64_value(b64_symbol(v)) == v,
        b64_symbol(v) != '=',
{
}

proof fn lemma_b64_decode_concat(a: Seq<char>, b: Seq<char>)
    requires
        a.len() % 4 == 0,
    ensures
        b64_decode(a + b) == b64_decode(a) + b64_decode(b),
    decreases a.len(),
{
    if a.len() == 0 {
        assert(a + b =~= b);
        assert(b64_decode(a) + b64_decode(b) =~= b64_decode(b));
    } else {
        let rest = a.subrange(4, a.len() as int);
        lemma_b64_decode_concat(rest, b);
        assert((a + b).subrange(4, (a + b).len() as int) =~= rest + b);
        let t = a + b;
        assert(t[0] == a[0] && t[1] == a[1] && t[2] == a[2] && t[3] == a[3]);
    }
}

/// The three bytes of a 24-bit number read back from its four 6-bit symbols.
proof fn lemma_b64_group_decode(d0: u8, d1: u8, d2: u8)
    ensures
        b64_decode(b64_groups(d0 * 65536 + d1 * 256 + d2)) == seq![d0, d1, d2],
{
    let n = d0 * 65536 + d1 * 256 + d2;
    let g = b64_groups(n);
    lemma_b64_digits(n);
    lemma_b64_value_symbol(n / 262144);
    lemma_b64_value_symbol((n / 4096) % 64);
    lemma_b64_value_symbol((n / 64) % 64);
    lemma_b64_value_symbol(n % 64);
    assert(b64_quad(g[0], g[1], g[2], g[3]) == n);
    lemma_b64_bytes_of(d0, d1, d2);
    lemma_b64_decode_group(g);
    assert(b64_bytes(n, g[2], g[3]) =~= seq![d0, d1, d2]);
}

proof fn lemma_b64_chunks_decode(data: Seq<u8>, q: int)
    requires
        0 <= q,
        3 * q <= data.len(),
    ensures
        b64_decode(b64_chunks(data, q)) == data.subrange(0, 3 * q),
    decreases q,
{
    if q == 0 {
        assert(b64_decode(Seq::<char>::empty()) =~= data.subrange(0, 0));
    } else {
        let i = 3 * (q - 1);
        lemma_b64_chunks_decode(data, q - 1);
        lemma_b64_chunks_len(data, q - 1);
        lemma_b64_decode_concat(
            b64_chunks(data, q - 1),
            b64_groups(data[i] * 65536 + data[i + 1] * 256 + data[i + 2]),
        );
        lemma_b64_group_decode(data[i], data[i + 1], data[i + 2]);
        assert(data.subrange(0, i) + seq![data[i], data[i + 1], data[i + 2]] =~= data.subrange(
            0,
            3 * q,
        ));
    }
}

proof fn lemma_b64_tail_decode(data: Seq<u8>)
    ensures
        b64_decode(b64_tail(data)) == data.subrange(data.len() - data.len() % 3, data.len() as int),
{
    let r = data.len() % 3;
    let i = data.len() - r;
    let t = b64_tail(data);
    if r == 1 {
        let d0 = data[i];
        let n = d0 * 65536 + 0u8 * 256 + 0u8;
        let g = b64_groups(n);
        lemma_b64_digits(n);
        lemma_b64_value_symbol(n / 262144);
        lemma_b64_value_symbol((n / 4096) % 64);
        lemma_b64_bytes_of(d0, 0, 0);
        assert((n / 64) % 64 == 0 && n % 64 == 0);
        assert(b64_quad(t[0], t[1], t[2], t[3]) == n);
        lemma_b64_decode_group(t);
        assert(b64_decode(t) =~= data.subrange(i, data.len() as int));
    } else if r == 2 {
        let d0 = data[i];
        let d1 = data[i + 1];
        let n = d0 * 65536 + d1 * 256 + 0u8;
        lemma_b64_digits(n);
        lemma_b64_value_symbol(n / 262144);
        lemma_b64_value_symbol((n / 4096) % 64);
        lemma_b64_value_symbol((n / 64) % 64);
        lemma_b64_bytes_of(d0, d1, 0);
        assert(n % 64 == 0);
        assert(b64_quad(t[0], t[1], t[2], t[3]) == n);
        lemma_b64_decode_group(t);
        assert(b64_decode(t) =~= data.subrange(i, data.len() as int));
    } else {
        assert(b64_decode(t) =~= data.subrange(i, data.len() as int));
    }
}

/// Decoding the Base64 text of `data` gives `data` back.
pub proof fn lemma_base64_round_trip(data: Seq<u8>)
    ensures
        b64_decode(base64(data)) == data,
{
    let q = data.len() as int / 3;
    lemma_b64_chunks_len(data, q);
    lemma_b64_decode_concat(b64_chunks(data, q), b64_tail(data));
    lemma_b64_chunks_decode(data, q);
    lemma_b64_tail_decode(data);
    assert(data.subrange(0, 3 * q) + data.subrange(3 * q, data.len() as int) =~= data);
}

} // verus!
