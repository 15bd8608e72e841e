use crate::error::{invalid_pe, Error, ErrorModel};
use crate::index::{AnalysisIndex, IndexModel};
use crate::pe::{Function, FunctionModel, ImageModel, PeImage};
use crate::text::{ascii_lowercase, chars_of, concat, lower, text_is};
use vstd::prelude::*;

verus! {

/// What an analysis reads functions from: a parsed PE image or a stored
/// analysis index.
pub enum Input {
    /// A parsed PE image.
    Pe(PeImage),
    /// A stored analysis index.
    Index(AnalysisIndex),
}

/// The mathematical value of an [`Input`].
pub enum InputModel {
    Pe(ImageModel),
    Index(IndexModel),
}

impl View for Input {
    type V = InputModel;

    open spec fn view(&self) -> InputModel {
        match self {
            Input::Pe(image) => InputModel::Pe(image@),
            Input::Index(index) => InputModel::Index(index@),
        }
    }
}

/// A function lookup result with both sides taken by their views.
pub open spec fn function_result(r: Result<Function, Error>) -> Result<FunctionModel, ErrorModel> {
    match r {
        Ok(f) => Ok(f@),
        Err(e) => Err(e@),
    }
}

impl InputModel {
    /// The functions of the input: those that decode, for an image; the
    /// stored ones, for an index.
    pub open spec fn functions(self) -> Seq<FunctionModel> {
        match self {
            InputModel::Pe(image) => image.recoverable(),
            InputModel::Index(index) => index.functions,
        }
    }

    /// The function that contains the virtual address `va`, or the error.
    pub open spec fn function_at_va(self, va: u64) -> Result<FunctionModel, ErrorModel> {
        match self {
            InputModel::Pe(image) => match image.rva_of(va) {
                Err(e) => Err(e),
                Ok(rva) => image.function_at(rva),
            },
            InputModel::Index(index) => index.function_at_va(va),
        }
    }

    /// The function that contains `rva`, or the error.
    pub open spec fn function_at_rva(self, rva: u32) -> Result<FunctionModel, ErrorModel> {
        match self {
            InputModel::Pe(image) => image.function_at(rva),
            InputModel::Index(index) => index.function_at(rva),
        }
    }
}

impl Input {
    /// The functions of the input, in order.
    pub fn functions(&self) -> (r: Vec<Function>)
        ensures
            r@.map_values(|f: Function| f@) == self@.functions(),
    {
        match self {
            Input::Pe(image) => image.functions(),
            Input::Index(index) => {
                let stored = index.functions();
                let mut out: Vec<Function> = Vec::new();
                let mut i: usize = 0;
                while i < stored.len()
                    invariant
                        i <= stored@.len(),
                        out@.map_values(|f: Function| f@) == stored@.map_values(|f: Function| f@).take(
                            i as int,
                        ),
                    decreases stored@.len() - i,
                {
                    let copy = stored[i].clone();
                    let ghost before = out@;
                    out.push(copy);
                    proof {
                        assert(out@.map_values(|f: Function| f@) =~= before.map_values(
                            |f: Function| f@,
                        ).push(copy@));
                        assert(stored@.map_values(|f: Function| f@).take(i + 1) =~= stored@.map_values(
                            |f: Function| f@,
                        ).take(i as int).push(stored@[i as int]@));
                    }
                    i = i + 1;
                }
                proof {
                    assert(stored@.map_values(|f: Function| f@).take(i as int) =~= stored@.map_values(
                        |f: Function| f@,
                    ));
                }
                out
            },
        }
    }

    /// The function that contains a virtual address.
    pub fn function_at_va(&self, va: u64) -> (r: Result<Function, Error>)
        ensures
            function_result(r) == self@.function_at_va(va),
    {
        match self {
            Input::Pe(image) => image.function_at_va(va),
            Input::Index(index) => index.function_at_va(va),
        }
    }

    /// The function that contains an RVA.
    pub fn function_at_rva(&self, rva: u32) -> (r: Result<Function, Error>)
        ensures
            function_result(r) == self@.function_at_rva(rva),
    {
        match self {
            Input::Pe(image) => image.function_at_rva(rva),
            Input::Index(index) => index.function_at_rva(rva),
        }
    }
}

/// The function that the options `--address` and `--rva` select: exactly
/// one of them must be given; an RVA above `u32::MAX` lies outside the
/// image.
pub open spec fn spec_resolve(input: InputModel, address: Option<u64>, rva: Option<u64>) -> Result<
    FunctionModel,
    ErrorModel,
> {
    match (address, rva) {
        (Some(va), None) => input.function_at_va(va),
        (None, Some(r)) => if r > u32::MAX {
            Err(ErrorModel::OutsideCode(r))
        } else {
            input.function_at_rva(r as u32)
        },
        (None, None) => Err(ErrorModel::InvalidPe("provide --address or --rva"@)),
        (Some(_), Some(_)) => Err(ErrorModel::InvalidPe("provide only one of --address or --rva"@)),
    }
}

/// Selects a function of the input by virtual address or by RVA.
pub fn resolve_function(input: &Input, address: Option<u64>, rva: Option<u64>) -> (r: Result<
    Function,
    Error,
>)
    ensures
        function_result(r) == spec_resolve(input@, address, rva),
{
    match (address, rva) {
        (Some(va), None) => input.function_at_va(va),
        (None, Some(r)) => {
            if r > u32::MAX as u64 {
                Err(Error::OutsideCode(r))
            } else {
                input.function_at_rva(r as u32)
            }
        },
        (None, None) => Err(invalid_pe("provide --address or --rva")),
        (Some(_), Some(_)) => Err(invalid_pe("provide only one of --address or --rva")),
    }
}

/// A file extension names an analysis index: it is `rdx`, in any ASCII
/// case.
pub fn is_index_extension(extension: Option<&str>) -> (r: bool)
    ensures
        r == (extension matches Some(e) && lower(e@) == "rdx"@),
{
    match extension {
        Some(e) => {
            let folded = ascii_lowercase(e);
            text_is(&folded, "rdx")
        },
        None => false,
    }
}

/// The value of a hexadecimal digit.
pub open spec fn hex_digit(c: char) -> Option<nat> {
    if '0' <= c <= '9' {
        Some((c as nat - 48) as nat)
    } else if 'a' <= c <= 'f' {
        Some((c as nat - 87) as nat)
    } else if 'A' <= c <= 'F' {
        Some((c as nat - 55) as nat)
    } else {
        None
    }
}

/// Every character is a hexadecimal digit.
pub open spec fn all_hex(s: Seq<char>) -> bool {
    forall|k: int| 0 <= k < s.len() ==> (#[trigger] hex_digit(s[k])) is Some
}

/// The value of a string of hexadecimal digits.
pub open spec fn hex_value(s: Seq<char>) -> nat
    decreases s.len(),
{
    if s.len() == 0 {
        0
    } else {
        hex_value(s.drop_last()) * 16 + match hex_digit(s.last()) {
            Some(d) => d,
            None => 0,
        }
    }
}

/// The text without a leading `0x` or `0X`.
pub open spec fn without_hex_prefix(s: Seq<char>) -> Seq<char> {
    if s.len() >= 2 && s[0] == '0' && (s[1] == 'x' || s[1] == 'X') {
        s.skip(2)
    } else {
        s
    }
}

/// The digits without one leading `+`.
pub open spec fn without_plus(s: Seq<char>) -> Seq<char> {
    if s.len() > 0 && s[0] == '+' {
        s.skip(1)
    } else {
        s
    }
}

/// The hexadecimal number that `text` spells: an optional `0x` or `0X`,
/// an optional `+`, then at least one hexadecimal digit, of a value that
/// fits in 64 bits.
pub open spec fn spec_parse_hex(text: Seq<char>) -> Option<u64> {
    let body = without_plus(without_hex_prefix(text));
    if body.len() == 0 || !all_hex(body) || hex_value(body) > u64::MAX {
        None
    } else {
        Some(hex_value(body) as u64)
    }
}

/// The message for text that is no hexadecimal number.
pub open spec fn invalid_hex_message(text: Seq<char>) -> Seq<char> {
    "invalid hexadecimal value: "@ + text
}

/// A longer prefix of hexadecimal digits has no smaller value.
proof fn lemma_hex_value_grows(s: Seq<char>, i: int, j: int)
    requires
        0 <= i <= j <= s.len(),
    ensures
        hex_value(s.take(i)) <= hex_value(s.take(j)),
    decreases j - i,
{
    if i < j {
        lemma_hex_value_grows(s, i, j - 1);
        assert(s.take(j).drop_last() =~= s.take(j - 1));
    }
}

fn hex_digit_of(c: char) -> (r: Option<u64>)
    ensures
        match hex_digit(c) {
            Some(d) => r == Some(d as u64),
            None => r is None,
        },
{
    if '0' <= c && c <= '9' {
        Some((c as u32 - 48) as u64)
    } else if 'a' <= c && c <= 'f' {
        Some((c as u32 - 87) as u64)
    } else if 'A' <= c && c <= 'F' {
        Some((c as u32 - 55) as u64)
    } else {
        None
    }
}

/// Reads a hexadecimal number, with an optional `0x` or `0X` prefix and an
/// optional `+` sign.
pub fn parse_hex_text(value: &str) -> (r: Result<u64, String>)
    ensures
        spec_parse_hex(value@) matches Some(n) ==> (r matches Ok(x) && x == n),
        spec_parse_hex(value@) is None ==> (r matches Err(m) && m@ == invalid_hex_message(value@)),
{
    let chars = chars_of(value);
    let ghost text = value@;
    let ghost stripped = without_hex_prefix(text);
    let mut start: usize = 0;
    if chars.len() >= 2 && chars[0] == '0' && (chars[1] == 'x' || chars[1] == 'X') {
        start = 2;
    }
    assert(stripped =~= chars@.subrange(start as int, chars@.len() as int));
    if start < chars.len() && chars[start] == '+' {
        start = start + 1;
    }
    let ghost body = without_plus(stripped);
    assert(body =~= chars@.subrange(start as int, chars@.len() as int));
    if start == chars.len() {
        return Err(concat("invalid hexadecimal value: ", value));
    }
    let mut value_so_far: u64 = 0;
    let mut i: usize = start;
    while i < chars.len()
        invariant
            start <= i <= chars@.len(),
            chars@ == text,
            body == chars@.subrange(start as int, chars@.len() as int),
            body == without_plus(without_hex_prefix(value@)),
            body.len() > 0,
            value@ == text,
            forall|k: int| 0 <= k < i - start ==> (#[trigger] hex_digit(body[k])) is Some,
            value_so_far == hex_value(body.take(i - start)),
        decreases chars@.len() - i,
    {
        let ghost at = (i - start) as int;
        assert(body[at] == chars@[i as int]);
        let digit = match hex_digit_of(chars[i]) {
            Some(d) => d,
            None => {
                assert(hex_digit(body[at]) is None);
                assert(!all_hex(body));
                return Err(concat("invalid hexadecimal value: ", value));
            },
        };
        let next: u128 = value_so_far as u128 * 16 + digit as u128;
        assert(body.take(at + 1).drop_last() =~= body.take(at));
        assert(hex_value(body.take(at + 1)) == next);
        if next > u64::MAX as u128 {
            proof {
                lemma_hex_value_grows(body, at + 1, body.len() as int);
                assert(body.take(body.len() as int) =~= body);
            }
            return Err(concat("invalid hexadecimal value: ", value));
        }
        value_so_far = next as u64;
        i = i + 1;
    }
    proof {
        assert(body.take(body.len() as int) =~= body);
    }
    Ok(value_so_far)
}

/// `part` is a contiguous part of `whole`.
pub open spec fn is_part_of(part: Seq<char>, whole: Seq<char>) -> bool {
    exists|i: int, j: int| 0 <= i <= j <= whole.len() && part == whole.subrange(i, j)
}

/// What `str::trim` gives for `s`.
pub uninterp spec fn str_trim(s: Seq<char>) -> Seq<char>;

/// `str::trim`: the text without leading and trailing Unicode white space.
/// The contract names the result `str_trim` and states what the standard
/// documentation gives in closed form: the result is a contiguous part of
/// the text. Which characters count as white space is left unsaid.
#[verifier::external_body]
fn trim_text(s: &str) -> (r: &str)
    ensures
        r@ == str_trim(s@),
        is_part_of(r@, s@),
{
    s.trim()
}

/// Reads a command-line number: hexadecimal, with surrounding white space
/// ignored and an optional `0x` or `0X` prefix.
pub fn parse_number(value: &str) -> (r: Result<u64, String>)
    ensures
        spec_parse_hex(str_trim(value@)) matches Some(n) ==> (r matches Ok(x) && x == n),
        spec_parse_hex(str_trim(value@)) is None ==> (r matches Err(m) && m@ == invalid_hex_message(
            str_trim(value@),
        )),
{
    let trimmed = trim_text(value);
    parse_hex_text(trimmed)
}

} // verus!
