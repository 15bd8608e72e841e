use vstd::prelude::*;

verus! {

/// Appends one character to a string (`String::push`).
#[verifier::external_body]
pub(crate) fn push_char(s: &mut String, c: char)
    ensures
        final(s)@ == old(s)@.push(c),
{
    s.push(c);
}

/// ASCII lowercase of one character.
pub open spec fn lower_char(c: char) -> char {
    if 'A' <= c <= 'Z' {
        ((c as u32) + 32) as char
    } else {
        c
    }
}

/// ASCII lowercase of a character sequence.
pub open spec fn lower(s: Seq<char>) -> Seq<char> {
    s.map_values(|c: char| lower_char(c))
}

fn lower_one(c: char) -> (r: char)
    ensures
        r == lower_char(c),
{
    if 'A' <= c && c <= 'Z' {
        ((c as u8) + 32) as char
    } else {
        c
    }
}

/// Returns `s` with ASCII letters in lower case.
pub fn ascii_lowercase(s: &str) -> (r: String)
    ensures
        r@ == lower(s@),
{
    let mut out = String::new();
    for c in it: s.chars()
        invariant
            out@ == lower(it.seq().take(it.index() as int)),
    {
        let l = lower_one(c);
        push_char(&mut out, l);
    }
    out
}


/// The character of one digit below 16, lower case.
pub open spec fn digit_char(d: nat) -> char {
    if d < 10 {
        ((d + 48) as u32) as char
    } else {
        ((d + 87) as u32) as char
    }
}

/// The digits of `n` in base `base`, most significant first, without
/// leading zeros (`0` is written as one digit).
pub open spec fn digits(n: nat, base: nat) -> Seq<char>
    recommends
        2 <= base <= 16,
    decreases n,
{
    if base < 2 || n < base {
        seq![digit_char(n % 16)]
    } else {
        proof {
            assert(n / base < n) by (nonlinear_arith)
                requires
                    base >= 2,
                    n >= base,
            ;
        }
        digits(n / base, base).push(digit_char(n % base))
    }
}

/// `n` written in decimal.
pub open spec fn decimal(n: nat) -> Seq<char> {
    digits(n, 10)
}

/// `n` written in lower-case hexadecimal with the `0x` prefix.
pub open spec fn hex(n: nat) -> Seq<char> {
    "0x"@ + digits(n, 16)
}

fn digit_of(d: u64) -> (c: char)
    requires
        d < 16,
    ensures
        c == digit_char(d as nat),
{
    if d < 10 {
        ((d as u8) + 48) as char
    } else {
        ((d as u8) + 87) as char
    }
}

/// Appends the digits of `n` in base `base` to `out`.
pub fn push_digits(out: &mut String, n: u64, base: u64)
    requires
        2 <= base <= 16,
    ensures
        final(out)@ == old(out)@ + digits(n as nat, base as nat),
{
    let mut reversed: Vec<char> = Vec::new();
    let mut v = n;
    loop
        invariant_except_break
            2 <= base <= 16,
            digits(n as nat, base as nat) == digits(v as nat, base as nat) + reversed@.reverse(),
        ensures
            digits(n as nat, base as nat) == reversed@.reverse(),
        decreases v,
    {
        if v < base {
            let ghost before = reversed@;
            reversed.push(digit_of(v));
            proof {
                assert(reversed@.reverse() =~= seq![digit_char(v as nat)] + before.reverse());
            }
            break;
        }
        let ghost before = reversed@;
        reversed.push(digit_of(v % base));
        proof {
            assert(reversed@.reverse() =~= seq![digit_char((v % base) as nat)] + before.reverse());
            assert(digits(v as nat, base as nat) == digits((v / base) as nat, base as nat).push(
                digit_char((v % base) as nat),
            ));
        }
        v = v / base;
    }
    let ghost start = out@;
    let mut i = reversed.len();
    while i > 0
        invariant
            i <= reversed.len(),
            out@ == start + reversed@.reverse().take(reversed.len() - i),
        decreases i,
    {
        i = i - 1;
        push_char(out, reversed[i]);
        proof {
            assert(reversed@.reverse().take(reversed.len() - i) =~= reversed@.reverse().take(
                reversed.len() - i - 1,
            ).push(reversed@[i as int]));
        }
    }
    proof {
        assert(reversed@.reverse().take(reversed.len() as int) =~= reversed@.reverse());
    }
}

/// `n` in decimal.
pub fn decimal_string(n: u64) -> (r: String)
    ensures
        r@ == decimal(n as nat),
{
    let mut out = String::new();
    push_digits(&mut out, n, 10);
    proof {
        assert(out@ =~= decimal(n as nat));
    }
    out
}

/// `n` in lower-case hexadecimal with the `0x` prefix.
pub fn hex_string(n: u64) -> (r: String)
    ensures
        r@ == hex(n as nat),
{
    let mut out = String::from_str("0x");
    push_digits(&mut out, n, 16);
    out
}


/// What `String::from_utf8_lossy` gives for `bytes`: the decoded text, with
/// each invalid sequence replaced by U+FFFD.
pub uninterp spec fn utf8_lossy(bytes: Seq<u8>) -> Seq<char>;

/// Decodes bytes as UTF-8, replacing invalid sequences
/// (`String::from_utf8_lossy`).
///
/// The contract names the result `utf8_lossy(bytes)` and states the one fact
/// the standard documentation gives in closed form: valid UTF-8 decodes
/// unchanged. How invalid sequences are replaced is left unsaid.
#[verifier::external_body]
pub(crate) fn lossy_utf8(bytes: &[u8]) -> (r: String)
    ensures
        r@ == utf8_lossy(bytes@),
        vstd::utf8::valid_utf8(bytes@) ==> r@ == vstd::utf8::decode_utf8(bytes@),
{
    String::from_utf8_lossy(bytes).into_owned()
}

/// The characters of `s`, in order.
pub fn chars_of(s: &str) -> (r: Vec<char>)
    ensures
        r@ == s@,
{
    let mut out: Vec<char> = Vec::new();
    for c in it: s.chars()
        invariant
            out@ == it.seq().take(it.index() as int),
    {
        out.push(c);
    }
    out
}

/// Whether `s` is exactly the text `t`.
pub fn text_is(s: &String, t: &str) -> (r: bool)
    ensures
        r == (s@ == t@),
{
    let other = String::from_str(t);
    *s == other
}

/// Whether `s` starts with the character `c`.
pub fn starts_with_char(s: &String, c: char) -> (r: bool)
    ensures
        r == (s@.len() > 0 && s@[0] == c),
{
    let chars = chars_of(s.as_str());
    chars.len() > 0 && chars[0] == c
}

/// Whether `s` starts with the text `t`.
pub fn starts_with_text(s: &String, t: &str) -> (r: bool)
    ensures
        r == (t@.len() <= s@.len() && s@.subrange(0, t@.len() as int) == t@),
{
    let a = chars_of(s.as_str());
    let b = chars_of(t);
    if b.len() > a.len() {
        return false;
    }
    let mut i: usize = 0;
    while i < b.len()
        invariant
            b.len() <= a.len(),
            0 <= i <= b.len(),
            a@ == s@,
            b@ == t@,
            forall|k: int| 0 <= k < i ==> a@[k] == b@[k],
        decreases b.len() - i,
    {
        if a[i] != b[i] {
            assert(s@.subrange(0, t@.len() as int)[i as int] != t@[i as int]);
            return false;
        }
        i = i + 1;
    }
    assert(s@.subrange(0, t@.len() as int) =~= t@);
    true
}

/// `s` followed by `t`.
pub fn concat(s: &str, t: &str) -> (r: String)
    ensures
        r@ == s@ + t@,
{
    let mut out = String::from_str(s);
    out.append(t);
    out
}

} // verus!
