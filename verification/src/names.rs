//! Names that a user gives to profiles.

use vstd::prelude::*;
use vstd::string::*;
use vstd::utf8::encode_utf8;

use crate::text::{is_digit, to_chars, trim, trimmed};
use crate::versions::is_ascii_alphanumeric;

verus! {

/// Whether `c` is a letter or a number by the Unicode tables.
pub uninterp spec fn is_alphanumeric(c: char) -> bool;

/// Specifies `char::is_alphanumeric` of the standard library: its result
/// depends on the character alone, and of the ASCII characters it holds of
/// the letters and the digits only.
pub assume_specification[ char::is_alphanumeric ](c: char) -> (r: bool)
    ensures
        r == is_alphanumeric(c),
        (c as u32) < 128 ==> r == is_ascii_alphanumeric(c),
;

/// Whether `c` may stand in a name.
pub open spec fn is_name_char(c: char) -> bool {
    is_alphanumeric(c) || c == '_' || c == '-'
}

/// The longest name, in bytes.
pub const MAX_NAME_BYTES: usize = 64;

/// Whether `s` is a word in any mix of its upper and lower case letters.
pub open spec fn spells(s: Seq<char>, upper: Seq<char>, lower: Seq<char>) -> bool {
    s.len() == upper.len() && forall|i: int|
        0 <= i < s.len() ==> #[trigger] s[i] == upper[i] || s[i] == lower[i]
}

/// Whether `c` can be the number of a port in the name of a device: a decimal
/// digit, or a superscript one, two or three.
pub open spec fn is_port_number(c: char) -> bool {
    is_digit(c) || c == '¹' || c == '²' || c == '³'
}

/// Whether Windows keeps the name for a device, so that no file can have it:
/// `CON`, `PRN`, `AUX` or `NUL`, or `COM` or `LPT` with the number of a port,
/// in upper or lower case.
pub open spec fn is_reserved(name: Seq<char>) -> bool {
    ||| spells(name, "CON"@, "con"@)
    ||| spells(name, "PRN"@, "prn"@)
    ||| spells(name, "AUX"@, "aux"@)
    ||| spells(name, "NUL"@, "nul"@)
    ||| {
        &&& name.len() == 4
        &&& spells(name.take(3), "COM"@, "com"@) || spells(name.take(3), "LPT"@, "lpt"@)
        &&& is_port_number(name[3])
    }
}

fn begins_with_word(chars: &Vec<char>, upper: &str, lower: &str) -> (r: bool)
    requires
        chars@.len() >= 3,
        upper@.len() == 3,
        lower@.len() == 3,
    ensures
        r == spells(chars@.take(3), upper@, lower@),
{
    let ghost word = chars@.take(3);
    let u = to_chars(upper);
    let l = to_chars(lower);
    let mut i: usize = 0;
    while i < 3
        invariant
            i <= 3,
            chars@.len() >= 3,
            word == chars@.take(3),
            u@ == upper@,
            l@ == lower@,
            upper@.len() == 3,
            lower@.len() == 3,
            forall|j: int| 0 <= j < i ==> #[trigger] word[j] == upper@[j] || word[j] == lower@[j],
        decreases 3 - i,
    {
        assert(word[i as int] == chars@[i as int]);
        if chars[i] != u[i] && chars[i] != l[i] {
            return false;
        }
        i += 1;
    }
    true
}

fn is_device_name(chars: &Vec<char>) -> (r: bool)
    ensures
        r == is_reserved(chars@),
{
    proof {
        reveal_strlit("CON");
        reveal_strlit("con");
        reveal_strlit("PRN");
        reveal_strlit("prn");
        reveal_strlit("AUX");
        reveal_strlit("aux");
        reveal_strlit("NUL");
        reveal_strlit("nul");
        reveal_strlit("COM");
        reveal_strlit("com");
        reveal_strlit("LPT");
        reveal_strlit("lpt");
    }
    if chars.len() == 3 {
        assert(chars@.take(3) =~= chars@);
        begins_with_word(chars, "CON", "con") || begins_with_word(chars, "PRN", "prn")
            || begins_with_word(chars, "AUX", "aux") || begins_with_word(chars, "NUL", "nul")
    } else if chars.len() == 4 {
        let c = chars[3];
        (begins_with_word(chars, "COM", "com") || begins_with_word(chars, "LPT", "lpt")) && ((
        '0' <= c && c <= '9') || c == '¹' || c == '²' || c == '³')
    } else {
        false
    }
}

pub(crate) proof fn lemma_reserved_starts(name: Seq<char>)
    requires
        is_reserved(name),
    ensures
        3 <= name.len() <= 4,
        !is_digit(name[0]) && name[0] != '.',
{
    reveal_strlit("CON");
    reveal_strlit("con");
    reveal_strlit("PRN");
    reveal_strlit("prn");
    reveal_strlit("AUX");
    reveal_strlit("aux");
    reveal_strlit("NUL");
    reveal_strlit("nul");
    reveal_strlit("COM");
    reveal_strlit("com");
    reveal_strlit("LPT");
    reveal_strlit("lpt");
    if name.len() == 4 {
        assert(name.take(3)[0] == name[0]);
    }
}

/// What is wrong with a name: it is blank, it is too long, it has a character
/// that no name may have, or Windows keeps it for a device. The first that
/// applies counts.
pub open spec fn name_fault(name: Seq<char>) -> Option<Seq<char>> {
    if trimmed(name).len() == 0 {
        Some("名称不能为空"@)
    } else if encode_utf8(name).len() > MAX_NAME_BYTES {
        Some("名称过长"@)
    } else if exists|i: int| 0 <= i < name.len() && !is_name_char(#[trigger] name[i]) {
        Some("名称仅支持字母、数字、下划线、连字符"@)
    } else if is_reserved(name) {
        Some("名称为系统保留名称"@)
    } else {
        None
    }
}

/// Whether a character of a name can be part of a path that leads elsewhere,
/// or is one that Windows forbids in file names: of the ASCII characters, all
/// but letters, digits, the underscore and the hyphen.
pub open spec fn is_unsafe_in_path(c: char) -> bool {
    (c as u32) < 128 && !is_ascii_alphanumeric(c) && c != '_' && c != '-'
}

/// Checks a name. One that passes has no separator, no dot and no other
/// ASCII character that could lead a path elsewhere or that Windows forbids in
/// file names, and it is not the name of a device.
pub fn validate_name(name: &str) -> (r: Result<(), String>)
    ensures
        r is Ok <==> name_fault(name@) is None,
        r matches Err(e) ==> name_fault(name@) == Some(e@),
        r is Ok ==> forall|i: int| 0 <= i < name@.len() ==> !is_unsafe_in_path(#[trigger] name@[i]),
        r is Ok ==> !is_reserved(name@),
{
    if trim(name).as_str().is_empty() {
        return Err("名称不能为空".to_string());
    }
    if name.as_bytes().len() > MAX_NAME_BYTES {
        return Err("名称过长".to_string());
    }
    let chars = to_chars(name);
    let mut i: usize = 0;
    while i < chars.len()
        invariant
            chars@ == name@,
            i <= chars@.len(),
            trimmed(name@).len() != 0,
            encode_utf8(name@).len() <= MAX_NAME_BYTES,
            forall|j: int|
                0 <= j < i ==> is_name_char(#[trigger] name@[j]) && !is_unsafe_in_path(name@[j]),
        decreases chars.len() - i,
    {
        let c = chars[i];
        if !(c.is_alphanumeric() || c == '_' || c == '-') {
            assert(!is_name_char(name@[i as int]));
            return Err("名称仅支持字母、数字、下划线、连字符".to_string());
        }
        i += 1;
    }
    if is_device_name(&chars) {
        return Err("名称为系统保留名称".to_string());
    }
    Ok(())
}

/// A name passes exactly where something is left of it when it is trimmed, it
/// has at most 64 bytes, each of its characters is a letter, a number, an
/// underscore or a hyphen, and no device has it.
pub proof fn law_which_names_pass(name: Seq<char>, i: int)
    ensures
        trimmed(name).len() > 0 && encode_utf8(name).len() <= 64 && (forall|k: int|
            0 <= k < name.len() ==> is_alphanumeric(#[trigger] name[k]) || name[k] == '_' || name[k]
                == '-') && !is_reserved(name) ==> name_fault(name) is None,
        trimmed(name).len() == 0 ==> name_fault(name) is Some,
        encode_utf8(name).len() > 64 ==> name_fault(name) is Some,
        0 <= i < name.len() && !is_alphanumeric(name[i]) && name[i] != '_' && name[i] != '-'
            ==> name_fault(name) is Some,
        is_reserved(name) ==> name_fault(name) is Some,
{
    if 0 <= i < name.len() && !is_alphanumeric(name[i]) && name[i] != '_' && name[i] != '-' {
        assert(!is_name_char(name[i]));
    }
}

/// The names of devices, letter by letter: of three letters there are four, of
/// four characters two with a number, and there are none of any other length.
pub proof fn law_names_of_devices(a: char, b: char, c: char, d: char, name: Seq<char>)
    ensures
        is_reserved(seq![a, b, c]) <==> {
            ||| (a == 'C' || a == 'c') && (b == 'O' || b == 'o') && (c == 'N' || c == 'n')
            ||| (a == 'P' || a == 'p') && (b == 'R' || b == 'r') && (c == 'N' || c == 'n')
            ||| (a == 'A' || a == 'a') && (b == 'U' || b == 'u') && (c == 'X' || c == 'x')
            ||| (a == 'N' || a == 'n') && (b == 'U' || b == 'u') && (c == 'L' || c == 'l')
        },
        is_reserved(seq![a, b, c, d]) <==> {
            &&& ('0' <= d <= '9' || d == '¹' || d == '²' || d == '³')
            &&& {
                ||| (a == 'C' || a == 'c') && (b == 'O' || b == 'o') && (c == 'M' || c == 'm')
                ||| (a == 'L' || a == 'l') && (b == 'P' || b == 'p') && (c == 'T' || c == 't')
            }
        },
        is_reserved(name) ==> 3 <= name.len() <= 4,
{
    reveal_strlit("CON");
    reveal_strlit("con");
    reveal_strlit("PRN");
    reveal_strlit("prn");
    reveal_strlit("AUX");
    reveal_strlit("aux");
    reveal_strlit("NUL");
    reveal_strlit("nul");
    reveal_strlit("COM");
    reveal_strlit("com");
    reveal_strlit("LPT");
    reveal_strlit("lpt");
    let s = seq![a, b, c];
    lemma_spells_three(s, "CON"@, "con"@);
    lemma_spells_three(s, "PRN"@, "prn"@);
    lemma_spells_three(s, "AUX"@, "aux"@);
    lemma_spells_three(s, "NUL"@, "nul"@);
    lemma_spells_three(s, "COM"@, "com"@);
    lemma_spells_three(s, "LPT"@, "lpt"@);
    assert(seq![a, b, c, d].take(3) =~= s);
    if is_reserved(name) {
        lemma_reserved_starts(name);
    }
}

proof fn lemma_spells_three(s: Seq<char>, upper: Seq<char>, lower: Seq<char>)
    requires
        s.len() == 3,
        upper.len() == 3,
    ensures
        spells(s, upper, lower) <==> (s[0] == upper[0] || s[0] == lower[0]) && (s[1] == upper[1]
            || s[1] == lower[1]) && (s[2] == upper[2] || s[2] == lower[2]),
{
    if (s[0] == upper[0] || s[0] == lower[0]) && (s[1] == upper[1] || s[1] == lower[1]) && (s[2]
        == upper[2] || s[2] == lower[2]) {
        assert forall|i: int| 0 <= i < s.len() implies #[trigger] s[i] == upper[i] || s[i]
            == lower[i] by {
            assert(i == 0 || i == 1 || i == 2);
        }
    }
}

} // verus!
