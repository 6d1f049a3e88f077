//! Saving an exported PNG: the file name it is saved under, the base64 text
//! that carries its bytes to the mobile gallery plugin, and what the answers
//! of the gallery plugin and of the save dialog mean for the export.

use vstd::prelude::*;
use vstd::string::StringExecFns;
use crate::text::{
    ascii_lower, ascii_lower_char, chars_of, is_white, push_char, string_from_chars, trim, trim_bounds,
    trim_end, trim_start,
};

verus! {

/// Characters a file name may not hold.
pub open spec fn unsafe_in_name(c: char) -> bool {
    c == '/' || c == '\\' || c == ':' || c == '*' || c == '?' || c == '"' || c == '<' || c == '>'
        || c == '|' || c == '\0'
}

pub open spec fn safe_char(c: char) -> char {
    if unsafe_in_name(c) {
        '_'
    } else {
        c
    }
}

/// `s` without its trailing dots.
pub open spec fn strip_dots(s: Seq<char>) -> Seq<char>
    decreases s.len(),
{
    if s.len() > 0 && s.last() == '.' {
        strip_dots(s.drop_last())
    } else {
        s
    }
}

/// `s` ends in `.png`, in any ASCII case.
pub open spec fn png_suffix(s: Seq<char>) -> bool {
    &&& s.len() >= 4
    &&& ascii_lower(s[s.len() - 4]) == '.'
    &&& ascii_lower(s[s.len() - 3]) == 'p'
    &&& ascii_lower(s[s.len() - 2]) == 'n'
    &&& ascii_lower(s[s.len() - 1]) == 'g'
}

/// The export file name: unsafe characters become `_`, white space and then
/// trailing dots are cut, an empty name becomes `card.png`, and `.png` is
/// added when missing.
pub open spec fn sanitized(name: Seq<char>) -> Seq<char> {
    let base = strip_dots(trim(name.map_values(|c: char| safe_char(c))));
    if base.len() == 0 {
        "card.png"@
    } else if png_suffix(base) {
        base
    } else {
        base + ".png"@
    }
}

fn safe_char_of(c: char) -> (r: char)
    ensures
        r == safe_char(c),
{
    if c == '/' || c == '\\' || c == ':' || c == '*' || c == '?' || c == '"' || c == '<' || c == '>'
        || c == '|' || c == '\0' {
        '_'
    } else {
        c
    }
}

/// The file name to save an export under.
pub fn sanitize_filename(name: &str) -> (r: String)
    ensures
        r@ == sanitized(name@),
{
    let cs = chars_of(name);
    let n = cs.len();
    let mut mapped: Vec<char> = Vec::new();
    let mut i: usize = 0;
    while i < n
        invariant
            i <= n == cs@.len(),
            mapped@ == cs@.take(i as int).map_values(|c: char| safe_char(c)),
        decreases n - i,
    {
        mapped.push(safe_char_of(cs[i]));
        i += 1;
        assert(mapped@ =~= cs@.take(i as int).map_values(|c: char| safe_char(c)));
    }
    assert(cs@.take(n as int) =~= cs@);
    assert(mapped@.subrange(0, n as int) =~= mapped@);
    let (lo, hi) = trim_bounds(&mapped, 0, n);
    let mut end = hi;
    while end > lo && mapped[end - 1] == '.'
        invariant
            lo <= end <= hi <= mapped@.len(),
            strip_dots(mapped@.subrange(lo as int, hi as int)) == strip_dots(
                mapped@.subrange(lo as int, end as int),
            ),
        decreases end - lo,
    {
        assert(mapped@.subrange(lo as int, end as int).drop_last() =~= mapped@.subrange(
            lo as int,
            end - 1,
        ));
        end -= 1;
    }
    let ghost base = mapped@.subrange(lo as int, end as int);
    assert(strip_dots(base) == base);
    assert(base == strip_dots(trim(name@.map_values(|c: char| safe_char(c)))));
    if end == lo {
        return String::from_str("card.png");
    }
    let len = end - lo;
    let is_png = len >= 4 && ascii_lower_char(mapped[end - 4]) == '.' && ascii_lower_char(
        mapped[end - 3],
    ) == 'p' && ascii_lower_char(mapped[end - 2]) == 'n' && ascii_lower_char(mapped[end - 1])
        == 'g';
    let mut out = string_from_chars(&mapped, lo, end);
    if !is_png {
        out.append(".png");
    }
    out
}

/// The base64 alphabet.
pub const B64_ALPHABET: [char; 64] = [
    'A', 'B', 'C', 'D', 'E', 'F', 'G', 'H', 'I', 'J', 'K', 'L', 'M', 'N', 'O', 'P', 'Q', 'R', 'S',
    'T', 'U', 'V', 'W', 'X', 'Y', 'Z', 'a', 'b', 'c', 'd', 'e', 'f', 'g', 'h', 'i', 'j', 'k', 'l',
    'm', 'n', 'o', 'p', 'q', 'r', 's', 't', 'u', 'v', 'w', 'x', 'y', 'z', '0', '1', '2', '3', '4',
    '5', '6', '7', '8', '9', '+', '/',
];

pub open spec fn b64(v: int) -> char {
    B64_ALPHABET@[v]
}

/// Standard base64 (with `=` padding) of `s`, three bytes to four characters.
pub open spec fn base64_of(s: Seq<u8>) -> Seq<char>
    decreases s.len(),
{
    if s.len() == 0 {
        seq![]
    } else if s.len() == 1 {
        seq![b64((s[0] / 4) as int), b64((s[0] % 4) * 16), '=', '=']
    } else if s.len() == 2 {
        seq![b64((s[0] / 4) as int), b64((s[0] % 4) * 16 + s[1] / 16), b64((s[1] % 16) * 4), '=']
    } else {
        seq![
            b64((s[0] / 4) as int),
            b64((s[0] % 4) * 16 + s[1] / 16),
            b64((s[1] % 16) * 4 + s[2] / 64),
            b64((s[2] % 64) as int),
        ] + base64_of(s.skip(3))
    }
}

proof fn lemma_sextets(b0: u8, b1: u8, b2: u8, n: u32)
    requires
        n == ((b0 as u32) << 16u32) | ((b1 as u32) << 8u32) | (b2 as u32),
    ensures
        (n >> 18u32) & 63u32 == b0 / 4,
        (n >> 12u32) & 63u32 == (b0 % 4) * 16 + b1 / 16,
        (n >> 6u32) & 63u32 == (b1 % 16) * 4 + b2 / 64,
        n & 63u32 == b2 % 64,
{
    assert((n >> 18u32) & 63u32 == b0 / 4) by (bit_vector)
        requires
            n == ((b0 as u32) << 16u32) | ((b1 as u32) << 8u32) | (b2 as u32),
    ;
    assert((n >> 12u32) & 63u32 == (b0 % 4) * 16 + b1 / 16) by (bit_vector)
        requires
            n == ((b0 as u32) << 16u32) | ((b1 as u32) << 8u32) | (b2 as u32),
    ;
    assert((n >> 6u32) & 63u32 == (b1 % 16) * 4 + b2 / 64) by (bit_vector)
        requires
            n == ((b0 as u32) << 16u32) | ((b1 as u32) << 8u32) | (b2 as u32),
    ;
    assert(n & 63u32 == b2 % 64) by (bit_vector)
        requires
            n == ((b0 as u32) << 16u32) | ((b1 as u32) << 8u32) | (b2 as u32),
    ;
}

/// Standard base64 encoding (passed to the gallery plugin, since JSON cannot
/// carry raw bytes).
pub fn base64_encode(input: &[u8]) -> (out: String)
    ensures
        out@ == base64_of(input@),
{
    let len = input.len();
    let mut out = String::new();
    let mut i: usize = 0;
    assert(input@.skip(0) =~= input@);
    while i < len
        invariant
            len == input@.len(),
            i <= len,
            base64_of(input@) == out@ + base64_of(input@.skip(i as int)),
        decreases len - i,
    {
        let ghost rest = input@.skip(i as int);
        let ghost out0 = out@;
        let left = len - i;
        let b0 = input[i];
        let b1 = if left > 1 {
            input[i + 1]
        } else {
            0
        };
        let b2 = if left > 2 {
            input[i + 2]
        } else {
            0
        };
        let n: u32 = ((b0 as u32) << 16u32) | ((b1 as u32) << 8u32) | (b2 as u32);
        proof {
            lemma_sextets(b0, b1, b2, n);
        }
        push_char(&mut out, B64_ALPHABET[((n >> 18u32) & 63u32) as usize]);
        push_char(&mut out, B64_ALPHABET[((n >> 12u32) & 63u32) as usize]);
        if left > 1 {
            push_char(&mut out, B64_ALPHABET[((n >> 6u32) & 63u32) as usize]);
        } else {
            push_char(&mut out, '=');
        }
        if left > 2 {
            push_char(&mut out, B64_ALPHABET[(n & 63u32) as usize]);
        } else {
            push_char(&mut out, '=');
        }
        assert(rest[0] == b0);
        if left > 2 {
            assert(rest[1] == b1 && rest[2] == b2);
            assert(rest.skip(3) =~= input@.skip(i + 3));
            i += 3;
        } else {
            if left == 2 {
                assert(rest[1] == b1);
            }
            assert(input@.skip(len as int) =~= Seq::<u8>::empty());
            i = len;
        }
        assert(out@ =~= out0 + (out@.subrange(out0.len() as int, out@.len() as int)));
    }
    assert(input@.skip(len as int) =~= Seq::<u8>::empty());
    assert(out@ + Seq::<char>::empty() =~= out@);
    out
}


/// No character of `s` is one a file name may not hold.
pub open spec fn all_safe(s: Seq<char>) -> bool {
    forall|i: int| 0 <= i < s.len() ==> !unsafe_in_name(#[trigger] s[i])
}

proof fn lemma_trim_start_safe(s: Seq<char>)
    requires
        all_safe(s),
    ensures
        all_safe(trim_start(s)),
    decreases s.len(),
{
    if s.len() > 0 && is_white(s[0]) {
        assert(all_safe(s.skip(1))) by {
            assert forall|i: int| 0 <= i < s.skip(1).len() implies !unsafe_in_name(
                #[trigger] s.skip(1)[i],
            ) by {
                assert(s.skip(1)[i] == s[i + 1]);
            }
        }
        lemma_trim_start_safe(s.skip(1));
    }
}

proof fn lemma_trim_end_safe(s: Seq<char>)
    requires
        all_safe(s),
    ensures
        all_safe(trim_end(s)),
    decreases s.len(),
{
    if s.len() > 0 && is_white(s.last()) {
        assert(all_safe(s.drop_last())) by {
            assert forall|i: int| 0 <= i < s.drop_last().len() implies !unsafe_in_name(
                #[trigger] s.drop_last()[i],
            ) by {
                assert(s.drop_last()[i] == s[i]);
            }
        }
        lemma_trim_end_safe(s.drop_last());
    }
}

proof fn lemma_strip_dots_safe(s: Seq<char>)
    requires
        all_safe(s),
    ensures
        all_safe(strip_dots(s)),
        strip_dots(s).len() == 0 || strip_dots(s).last() != '.',
    decreases s.len(),
{
    if s.len() > 0 && s.last() == '.' {
        assert(all_safe(s.drop_last())) by {
            assert forall|i: int| 0 <= i < s.drop_last().len() implies !unsafe_in_name(
                #[trigger] s.drop_last()[i],
            ) by {
                assert(s.drop_last()[i] == s[i]);
            }
        }
        lemma_strip_dots_safe(s.drop_last());
    }
}

/// The name an export is saved under is never empty, holds none of the
/// characters a file name may not hold, and ends in `.png` (in some case).
pub proof fn law_saved_name_is_safe_png(name: Seq<char>)
    ensures
        sanitized(name).len() > 0,
        all_safe(sanitized(name)),
        png_suffix(sanitized(name)),
{
    let mapped = name.map_values(|c: char| safe_char(c));
    assert(all_safe(mapped)) by {
        assert forall|i: int| 0 <= i < mapped.len() implies !unsafe_in_name(#[trigger] mapped[i]) by {
            assert(mapped[i] == safe_char(name[i]));
        }
    }
    lemma_trim_start_safe(mapped);
    lemma_trim_end_safe(trim_start(mapped));
    let base = strip_dots(trim(mapped));
    lemma_strip_dots_safe(trim(mapped));
    reveal_strlit("card.png");
    reveal_strlit(".png");
    if base.len() == 0 {
        assert(all_safe("card.png"@));
    } else if !png_suffix(base) {
        let full = base + ".png"@;
        assert(all_safe(full)) by {
            assert forall|i: int| 0 <= i < full.len() implies !unsafe_in_name(#[trigger] full[i]) by {
                if i < base.len() {
                    assert(full[i] == base[i]);
                } else {
                    assert(full[i] == ".png"@[i - base.len()]);
                }
            }
        }
        assert(full[full.len() - 4] == '.');
        assert(full[full.len() - 1] == 'g');
    }
}

proof fn lemma_trim_start_head(s: Seq<char>)
    ensures
        trim_start(s).len() > 0 ==> !is_white(trim_start(s)[0]),
    decreases s.len(),
{
    if s.len() > 0 && is_white(s[0]) {
        lemma_trim_start_head(s.skip(1));
    }
}

proof fn lemma_trim_end_prefix(s: Seq<char>)
    ensures
        trim_end(s).len() <= s.len(),
        trim_end(s) == s.take(trim_end(s).len() as int),
    decreases s.len(),
{
    if s.len() > 0 && is_white(s.last()) {
        lemma_trim_end_prefix(s.drop_last());
        assert(s.drop_last().take(trim_end(s).len() as int) =~= s.take(trim_end(s).len() as int));
    } else {
        assert(s.take(s.len() as int) =~= s);
    }
}

proof fn lemma_strip_dots_prefix(s: Seq<char>)
    ensures
        strip_dots(s).len() <= s.len(),
        strip_dots(s) == s.take(strip_dots(s).len() as int),
    decreases s.len(),
{
    if s.len() > 0 && s.last() == '.' {
        lemma_strip_dots_prefix(s.drop_last());
        assert(s.drop_last().take(strip_dots(s).len() as int) =~= s.take(
            strip_dots(s).len() as int,
        ));
    } else {
        assert(s.take(s.len() as int) =~= s);
    }
}

/// The name an export is saved under has no white space at either end (and
/// does not end in a dot): trimming it changes nothing.
pub proof fn law_saved_name_is_trimmed(name: Seq<char>)
    ensures
        !is_white(sanitized(name)[0]),
        !is_white(sanitized(name).last()),
        sanitized(name).last() != '.',
        trim(sanitized(name)) == sanitized(name),
{
    let r = sanitized(name);
    law_saved_name_is_safe_png(name);
    let mapped = name.map_values(|c: char| safe_char(c));
    let base = strip_dots(trim(mapped));
    lemma_trim_start_head(mapped);
    lemma_trim_end_prefix(trim_start(mapped));
    lemma_strip_dots_prefix(trim(mapped));
    reveal_strlit("card.png");
    reveal_strlit(".png");
    // the first character is not white space
    assert(r.len() > 0 && !is_white(r[0])) by {
        if base.len() > 0 {
            assert(base[0] == trim(mapped)[0]);
            assert(trim(mapped)[0] == trim_start(mapped)[0]);
            assert(r[0] == base[0]);
        }
    }
    // the last character is a `g` in some case
    let last = r[r.len() - 1];
    assert(ascii_lower(last) == 'g');
    assert(!is_white(last) && last != '.');
    assert(trim_start(r) == r);
    assert(r.last() == last);
    assert(trim_end(r) == r);
}

/// A name that is already what an export is saved under comes back unchanged:
/// cleaning a file name twice gives the same name as cleaning it once.
pub proof fn law_sanitize_is_idempotent(name: Seq<char>)
    ensures
        sanitized(sanitized(name)) == sanitized(name),
{
    let r = sanitized(name);
    law_saved_name_is_safe_png(name);
    law_saved_name_is_trimmed(name);
    let m2 = r.map_values(|c: char| safe_char(c));
    assert(m2 =~= r) by {
        assert forall|i: int| 0 <= i < r.len() implies m2[i] == r[i] by {
            assert(!unsafe_in_name(r[i]));
        }
    }
    assert(strip_dots(r) == r);
}

/// A name with nothing to trim at its ends (no white space at either end, no
/// trailing dot) is saved under itself with each of `/ \ : * ? " < > |` and
/// NUL turned into `_`, every other character kept in place (followed by
/// `.png` when it does not already end so).
pub proof fn law_unsafe_characters_become_underscores(name: Seq<char>)
    requires
        name.len() > 0,
        !is_white(name[0]),
        !is_white(name.last()),
        name.last() != '.',
    ensures
        sanitized(name).len() >= name.len(),
        forall|i: int|
            0 <= i < name.len() ==> #[trigger] sanitized(name)[i] == if name[i] == '/' || name[i]
                == '\\' || name[i] == ':' || name[i] == '*' || name[i] == '?' || name[i] == '"'
                || name[i] == '<' || name[i] == '>' || name[i] == '|' || name[i] == '\0' {
                '_'
            } else {
                name[i]
            },
{
    let m = name.map_values(|c: char| safe_char(c));
    assert(m.len() == name.len());
    assert(m[0] == safe_char(name[0]));
    assert(m.last() == safe_char(name.last()));
    assert(!is_white(m[0]) && !is_white(m.last()) && m.last() != '.');
    assert(trim_start(m) == m);
    assert(trim_end(m) == m);
    assert(strip_dots(m) == m);
    reveal_strlit(".png");
    assert forall|i: int| 0 <= i < name.len() implies #[trigger] sanitized(name)[i] == m[i] by {
        if !png_suffix(m) {
            assert((m + ".png"@)[i] == m[i]);
        }
    }
}

/// Base64 turns every started group of three bytes into four characters.
pub proof fn law_base64_length(s: Seq<u8>)
    ensures
        base64_of(s).len() == 4 * ((s.len() + 2) / 3),
    decreases s.len(),
{
    if s.len() >= 3 {
        law_base64_length(s.skip(3));
    }
}

/// The letter of a sextet: `A`–`Z`, `a`–`z`, `0`–`9`, `+`, `/`.
pub open spec fn sextet_letter(v: int) -> char {
    "ABCDEFGHIJKLMNOPQRSTUVWXYZabcdefghijklmnopqrstuvwxyz0123456789+/"@[v]
}

proof fn lemma_alphabet()
    ensures
        forall|v: int| 0 <= v < 64 ==> #[trigger] b64(v) == sextet_letter(v),
{
    reveal_strlit("ABCDEFGHIJKLMNOPQRSTUVWXYZabcdefghijklmnopqrstuvwxyz0123456789+/");
}

proof fn lemma_sextets_of_number(b0: u8, b1: u8, b2: u8)
    ensures
        ({
            let n = b0 * 65536 + b1 * 256 + b2;
            &&& n / 262144 == b0 / 4
            &&& (n / 4096) % 64 == (b0 % 4) * 16 + b1 / 16
            &&& (n / 64) % 64 == (b1 % 16) * 4 + b2 / 64
            &&& n % 64 == b2 % 64
        }),
{
    let n: int = b0 * 65536 + b1 * 256 + b2;
    let (q0, r0) = (b0 / 4, b0 % 4);
    let (q1, r1) = (b1 / 16, b1 % 16);
    let (q2, r2) = (b2 / 64, b2 % 64);
    assert(b0 == 4 * q0 + r0 && b1 == 16 * q1 + r1 && b2 == 64 * q2 + r2);
    assert(n == q0 * 262144 + (r0 * 16 + q1) * 4096 + (r1 * 4 + q2) * 64 + r2);
    assert(n / 262144 == q0) by (nonlinear_arith)
        requires
            n == q0 * 262144 + (r0 * 16 + q1) * 4096 + (r1 * 4 + q2) * 64 + r2,
            0 <= r0 < 4,
            0 <= q1 < 16,
            0 <= r1 < 16,
            0 <= q2 < 4,
            0 <= r2 < 64,
            0 <= q0,
    ;
    assert(n / 4096 == q0 * 64 + (r0 * 16 + q1)) by (nonlinear_arith)
        requires
            n == q0 * 262144 + (r0 * 16 + q1) * 4096 + (r1 * 4 + q2) * 64 + r2,
            0 <= r0 < 4,
            0 <= q1 < 16,
            0 <= r1 < 16,
            0 <= q2 < 4,
            0 <= r2 < 64,
            0 <= q0,
    ;
    assert((q0 * 64 + (r0 * 16 + q1)) % 64 == r0 * 16 + q1) by (nonlinear_arith)
        requires
            0 <= r0 < 4,
            0 <= q1 < 16,
            0 <= q0,
    ;
    assert(n / 64 == (q0 * 4096 + (r0 * 16 + q1) * 64) + (r1 * 4 + q2)) by (nonlinear_arith)
        requires
            n == q0 * 262144 + (r0 * 16 + q1) * 4096 + (r1 * 4 + q2) * 64 + r2,
            0 <= r1 < 16,
            0 <= q2 < 4,
            0 <= r2 < 64,
    ;
    assert(((q0 * 4096 + (r0 * 16 + q1) * 64) + (r1 * 4 + q2)) % 64 == r1 * 4 + q2) by (nonlinear_arith)
        requires
            0 <= r1 < 16,
            0 <= q2 < 4,
            0 <= q0,
            0 <= r0,
            0 <= q1,
    ;
    assert(n % 64 == r2) by (nonlinear_arith)
        requires
            n == q0 * 262144 + (r0 * 16 + q1) * 4096 + (r1 * 4 + q2) * 64 + r2,
            0 <= r2 < 64,
            0 <= q0,
            0 <= r0,
            0 <= q1,
            0 <= r1,
            0 <= q2,
    ;
}

/// Base64 writes each group of three bytes `b0 b1 b2` as the four 6-bit
/// digits of the number `b0·65536 + b1·256 + b2`, most significant first, each
/// as its letter of `A–Z a–z 0–9 + /`, and goes on with the rest; one or two
/// bytes left at the end are filled with zero bits and padded with `=`.
pub proof fn law_base64_groups(s: Seq<u8>)
    ensures
        s.len() >= 3 ==> ({
            let n = s[0] * 65536 + s[1] * 256 + s[2];
            &&& base64_of(s).take(4) == seq![
                sextet_letter(n / 262144),
                sextet_letter((n / 4096) % 64),
                sextet_letter((n / 64) % 64),
                sextet_letter(n % 64),
            ]
            &&& base64_of(s).skip(4) == base64_of(s.skip(3))
        }),
        s.len() == 2 ==> ({
            let n = s[0] * 65536 + s[1] * 256;
            base64_of(s) == seq![
                sextet_letter(n / 262144),
                sextet_letter((n / 4096) % 64),
                sextet_letter((n / 64) % 64),
                '=',
            ]
        }),
        s.len() == 1 ==> ({
            let n = s[0] * 65536;
            base64_of(s) == seq![sextet_letter(n / 262144), sextet_letter((n / 4096) % 64), '=', '=']
        }),
{
    lemma_alphabet();
    if s.len() >= 3 {
        lemma_sextets_of_number(s[0], s[1], s[2]);
        let n = s[0] * 65536 + s[1] * 256 + s[2];
        assert(0 <= n / 262144 < 64 && 0 <= (n / 4096) % 64 < 64);
        assert(0 <= (n / 64) % 64 < 64 && 0 <= n % 64 < 64);
        let head = seq![
            b64((s[0] / 4) as int),
            b64((s[0] % 4) * 16 + s[1] / 16),
            b64((s[1] % 16) * 4 + s[2] / 64),
            b64((s[2] % 64) as int),
        ];
        assert((head + base64_of(s.skip(3))).take(4) =~= head);
        assert((head + base64_of(s.skip(3))).skip(4) =~= base64_of(s.skip(3)));
    } else if s.len() == 2 {
        lemma_sextets_of_number(s[0], s[1], 0);
    } else if s.len() == 1 {
        lemma_sextets_of_number(s[0], 0, 0);
    }
}

/// What the gallery plugin's answer means for an export.
pub enum GalleryOutcome {
    /// Saved in the gallery at this path.
    Saved(String),
    /// The plugin failed and said why.
    Failed(String),
    /// The plugin failed without a reason: save into the app's own
    /// `exports` directory instead.
    Fallback,
}

/// The gallery plugin answers `{ ok, path, error }`: `ok` means saved at
/// `path`; otherwise a non-empty `error` is the failure, and an empty one
/// sends the export to the app's own directory.
pub fn gallery_outcome(ok: bool, path: String, error: String) -> (r: GalleryOutcome)
    ensures
        ok ==> (r matches GalleryOutcome::Saved(p) && p@ == path@),
        !ok && error@.len() > 0 ==> (r matches GalleryOutcome::Failed(e) && e@ == error@),
        !ok && error@.len() == 0 ==> r is Fallback,
{
    if ok {
        GalleryOutcome::Saved(path)
    } else if !error.as_str().is_empty() {
        GalleryOutcome::Failed(error)
    } else {
        GalleryOutcome::Fallback
    }
}

/// What the save dialog hands back.
pub enum DialogPick {
    /// A file system path.
    Path(String),
    /// A URL that is not a file system path.
    Url(String),
}

/// What to do once the save dialog has closed.
pub enum DialogOutcome {
    /// Write the PNG to this path.
    WriteTo(String),
    /// Refuse the export with this error (`cancelled` when nothing was picked).
    Refused(String),
}

/// The save dialog's answer decides the export: a picked path is written to;
/// a URL is refused as `unexpected path: <url>`; no pick is `cancelled`,
/// which the save endpoint reports as a cancellation.
pub fn dialog_outcome(picked: Option<DialogPick>) -> (r: DialogOutcome)
    ensures
        picked matches Some(DialogPick::Path(p)) ==> (r matches DialogOutcome::WriteTo(q) && q@
            == p@),
        picked matches Some(DialogPick::Url(u)) ==> (r matches DialogOutcome::Refused(e) && e@
            == "unexpected path: "@ + u@),
        picked is None ==> (r matches DialogOutcome::Refused(e) && e@ == "cancelled"@),
{
    match picked {
        Some(DialogPick::Path(p)) => DialogOutcome::WriteTo(p),
        Some(DialogPick::Url(u)) => {
            let mut e = String::from_str("unexpected path: ");
            e.append(u.as_str());
            DialogOutcome::Refused(e)
        },
        None => DialogOutcome::Refused(String::from_str("cancelled")),
    }
}

} // verus!
