use vstd::prelude::*;
use crate::catalog::Package;
use crate::error::PieError;

verus! {

/// The architectures that packages are built for.
pub open spec fn is_supported_arch(a: Seq<char>) -> bool {
    a == "arm64-v8a"@ || a == "armeabi-v7a"@ || a == "x86"@ || a == "x86_64"@ || a == "riscv64"@
}

/// Accepts the architecture the device reports if packages are built for it.
pub fn check_architecture(arch: &str) -> (r: Result<(), PieError>)
    ensures
        r is Ok <==> is_supported_arch(arch@),
        r is Err ==> r->Err_0 is UnsupportedArchitecture && r->Err_0->UnsupportedArchitecture_0@ == arch@,
{
    let a = arch.to_owned();
    if a == "arm64-v8a".to_owned() || a == "armeabi-v7a".to_owned() || a == "x86".to_owned() || a
        == "x86_64".to_owned() || a == "riscv64".to_owned() {
        Ok(())
    } else {
        Err(PieError::UnsupportedArchitecture(a))
    }
}

/// A character with the Unicode `White_Space` property, which is what
/// `char::is_whitespace` and `str::trim` go by.
pub open spec fn is_space(c: char) -> bool {
    ('\u{9}' <= c && c <= '\u{d}') || c == ' ' || c == '\u{85}' || c == '\u{a0}' || c == '\u{1680}'
        || ('\u{2000}' <= c && c <= '\u{200a}') || c == '\u{2028}' || c == '\u{2029}' || c
        == '\u{202f}' || c == '\u{205f}' || c == '\u{3000}'
}

/// `s` is empty once trimmed: every character is white space.
pub open spec fn is_blank(s: Seq<char>) -> bool {
    forall|i: int| 0 <= i < s.len() ==> is_space(#[trigger] s[i])
}

/// Whether `s` is empty once trimmed.
pub fn blank(s: &str) -> (r: bool)
    ensures
        r == is_blank(s@),
{
    let n = s.unicode_len();
    let mut i: usize = 0;
    while i < n
        invariant
            n == s@.len(),
            i <= n,
            forall|k: int| 0 <= k < i ==> is_space(#[trigger] s@[k]),
        decreases n - i,
    {
        let c = s.get_char(i);
        if !(('\u{9}' <= c && c <= '\u{d}') || c == ' ' || c == '\u{85}' || c == '\u{a0}' || c
            == '\u{1680}' || ('\u{2000}' <= c && c <= '\u{200a}') || c == '\u{2028}' || c
            == '\u{2029}' || c == '\u{202f}' || c == '\u{205f}' || c == '\u{3000}') {
            assert(!is_space(s@[i as int]));
            return false;
        }
        i = i + 1;
    }
    true
}

pub open spec fn is_digit(c: char) -> bool {
    '0' <= c && c <= '9'
}

/// The value of a string of decimal digits.
pub open spec fn decimal_value(s: Seq<char>) -> int
    decreases s.len(),
{
    if s.len() == 0 {
        0
    } else {
        decimal_value(s.drop_last()) * 10 + (s.last() as int - '0' as int)
    }
}

/// The text after an optional leading `+`.
pub open spec fn unsigned_part(s: Seq<char>) -> Seq<char> {
    if s.len() > 0 && s[0] == '+' {
        s.drop_first()
    } else {
        s
    }
}

/// The API level that `s` writes: an optional `+`, then one or more decimal
/// digits whose value fits in 32 bits.
pub open spec fn api_level_of(s: Seq<char>) -> Option<u32> {
    let d = unsigned_part(s);
    if d.len() > 0 && (forall|i: int| 0 <= i < d.len() ==> is_digit(#[trigger] d[i]))
        && decimal_value(d) <= u32::MAX {
        Some(decimal_value(d) as u32)
    } else {
        None
    }
}

proof fn lemma_decimal_prefix(d: Seq<char>, i: int)
    requires
        0 <= i <= d.len(),
        forall|k: int| 0 <= k < d.len() ==> is_digit(#[trigger] d[k]),
    ensures
        0 <= decimal_value(d.subrange(0, i)) <= decimal_value(d),
    decreases d.len(),
{
    if i == d.len() {
        assert(d.subrange(0, i) =~= d);
        if d.len() > 0 {
            lemma_decimal_prefix(d.drop_last(), i - 1);
            assert(d.drop_last().subrange(0, i - 1) =~= d.drop_last());
        }
    } else {
        lemma_decimal_prefix(d.drop_last(), i);
        assert(d.drop_last().subrange(0, i) =~= d.subrange(0, i));
        assert(is_digit(d[d.len() - 1]));
    }
}

/// Reads an API level as `u32::from_str` does.
pub fn parse_api_level(s: &str) -> (r: Option<u32>)
    ensures
        r == api_level_of(s@),
{
    let n = s.unicode_len();
    let start: usize = if n > 0 && s.get_char(0) == '+' {
        1
    } else {
        0
    };
    let ghost d = unsigned_part(s@);
    assert(d =~= s@.subrange(start as int, n as int));
    if start == n {
        return None;
    }
    let mut acc: u64 = 0;
    let mut i: usize = start;
    while i < n
        invariant
            n == s@.len(),
            d == unsigned_part(s@),
            d == s@.subrange(start as int, n as int),
            start <= i <= n,
            acc <= u32::MAX,
            forall|k: int| start <= k < i ==> is_digit(#[trigger] s@[k]),
            acc == decimal_value(d.subrange(0, i - start)),
        decreases n - i,
    {
        let c = s.get_char(i);
        if !('0' <= c && c <= '9') {
            assert(d[i - start] == c);
            assert(!is_digit(d[i - start]));
            return None;
        }
        let ghost pre = d.subrange(0, i - start);
        let ghost next = d.subrange(0, i + 1 - start);
        assert(next.drop_last() =~= pre);
        assert(next.last() == c);
        assert(decimal_value(next) == decimal_value(pre) * 10 + (c as int - '0' as int));
        acc = acc * 10 + (c as u64 - '0' as u64);
        if acc > u32::MAX as u64 {
            proof {
                if forall|k: int| 0 <= k < d.len() ==> is_digit(#[trigger] d[k]) {
                    lemma_decimal_prefix(d, i + 1 - start);
                }
            }
            return None;
        }
        i = i + 1;
    }
    assert(d.subrange(0, n - start) =~= d);
    assert forall|k: int| 0 <= k < d.len() implies is_digit(#[trigger] d[k]) by {
        assert(s@[k + start] == d[k]);
    }
    Some(acc as u32)
}

/// Why `p` cannot be installed on a device of API level `device`, if it
/// cannot: a declared minimum that is not a number, or one above `device`.
/// A minimum that is blank once trimmed is no constraint.
pub open spec fn api_error(p: Package, device: u32) -> Option<PieError> {
    match p.min_api {
        None => None,
        Some(m) => if is_blank(m@) {
            None
        } else {
            match api_level_of(m@) {
                None => Some(PieError::InvalidMinApi(m)),
                Some(v) => if v > device {
                    Some(PieError::IncompatibleApi { required: v, device })
                } else {
                    None
                },
            }
        },
    }
}

/// Checks the package's minimum API level against the device's.
pub fn check_api_compatibility(package: &Package, device_api: u32) -> (r: Result<(), PieError>)
    ensures
        r == match api_error(*package, device_api) {
            None => Ok(()),
            Some(e) => Err(e),
        },
{
    match &package.min_api {
        None => Ok(()),
        Some(m) => {
            if blank(m.as_str()) {
                return Ok(());
            }
            match parse_api_level(m.as_str()) {
                None => Err(PieError::InvalidMinApi(m.clone())),
                Some(v) => {
                    if v > device_api {
                        Err(PieError::IncompatibleApi { required: v, device: device_api })
                    } else {
                        Ok(())
                    }
                },
            }
        },
    }
}

} // verus!
