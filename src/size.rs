use vstd::prelude::*;
use vstd::string::*;

verus! {

/// The decimal digit character of a value below 10.
pub open spec fn digit_char(d: int) -> char {
    seq!['0', '1', '2', '3', '4', '5', '6', '7', '8', '9'][d]
}

/// Decimal text of `n`, without leading zeros.
pub open spec fn decimal_text(n: nat) -> Seq<char>
    decreases n,
{
    if n < 10 {
        seq![digit_char(n as int)]
    } else {
        decimal_text(n / 10) + seq![digit_char((n % 10) as int)]
    }
}

/// The unit a size is shown in: 0 for bytes, then KB, MB and GB.
pub open spec fn unit_of(bytes: nat) -> nat {
    if bytes >= 1073741824 {
        3
    } else if bytes >= 1048576 {
        2
    } else if bytes >= 1024 {
        1
    } else {
        0
    }
}

/// Bytes in one of unit `k`.
pub open spec fn unit_bytes(k: nat) -> nat {
    if k == 3 {
        1073741824
    } else if k == 2 {
        1048576
    } else if k == 1 {
        1024
    } else {
        1
    }
}

pub open spec fn unit_name(k: nat) -> Seq<char> {
    if k == 3 {
        seq!['G', 'B']
    } else if k == 2 {
        seq!['M', 'B']
    } else if k == 1 {
        seq!['K', 'B']
    } else {
        seq!['B']
    }
}

/// `n / d` in tenths, rounded to nearest, ties to even.
pub open spec fn rounded_tenths(n: nat, d: nat) -> nat
    recommends
        d > 0,
{
    let q = (n * 10) / d;
    let r = (n * 10) % d;
    if 2 * r > d || (2 * r == d && q % 2 == 1) {
        q + 1
    } else {
        q
    }
}

/// A byte count as people read it: whole bytes below 1 KB, else the
/// largest unit up to GB that it reaches, with one decimal.
pub open spec fn size_text(bytes: nat) -> Seq<char> {
    let k = unit_of(bytes);
    if k == 0 {
        decimal_text(bytes) + seq![' ', 'B']
    } else {
        let t = rounded_tenths(bytes, unit_bytes(k));
        decimal_text(t / 10) + seq!['.', digit_char((t % 10) as int), ' '] + unit_name(k)
    }
}

fn digit_str(d: u64) -> (r: &'static str)
    requires
        d < 10,
    ensures
        r@ == seq![digit_char(d as int)],
{
    proof {
        reveal_strlit("0");
        reveal_strlit("1");
        reveal_strlit("2");
        reveal_strlit("3");
        reveal_strlit("4");
        reveal_strlit("5");
        reveal_strlit("6");
        reveal_strlit("7");
        reveal_strlit("8");
        reveal_strlit("9");
    }
    let r = if d == 0 {
        "0"
    } else if d == 1 {
        "1"
    } else if d == 2 {
        "2"
    } else if d == 3 {
        "3"
    } else if d == 4 {
        "4"
    } else if d == 5 {
        "5"
    } else if d == 6 {
        "6"
    } else if d == 7 {
        "7"
    } else if d == 8 {
        "8"
    } else {
        "9"
    };
    assert(r@ =~= seq![digit_char(d as int)]);
    r
}

/// Appends the decimal text of `n` to `s`.
fn push_decimal(s: &mut String, n: u64)
    ensures
        final(s)@ == old(s)@ + decimal_text(n as nat),
    decreases n,
{
    if n >= 10 {
        push_decimal(s, n / 10);
    }
    s.append(digit_str(n % 10));
    proof {
        if n >= 10 {
            assert(old(s)@ + decimal_text(n as nat) =~= old(s)@ + decimal_text((n / 10) as nat) + seq![
                digit_char((n % 10) as int),
            ]);
        }
    }
}

/// Formats a byte count for display.
pub fn format_size(bytes: u64) -> (r: String)
    ensures
        r@ == size_text(bytes as nat),
{
    proof {
        reveal_strlit(" B");
        reveal_strlit(".");
        reveal_strlit(" ");
        reveal_strlit("GB");
        reveal_strlit("MB");
        reveal_strlit("KB");
    }
    let mut s = String::new();
    let k: u64 = if bytes >= 1073741824 {
        3
    } else if bytes >= 1048576 {
        2
    } else if bytes >= 1024 {
        1
    } else {
        0
    };
    if k == 0 {
        push_decimal(&mut s, bytes);
        s.append(" B");
        assert(s@ =~= size_text(bytes as nat));
        return s;
    }
    let d: u128 = if k == 3 {
        1073741824
    } else if k == 2 {
        1048576
    } else {
        1024
    };
    let n: u128 = bytes as u128 * 10;
    let q: u128 = n / d;
    let r: u128 = n % d;
    let t: u128 = if 2 * r > d || (2 * r == d && q % 2 == 1) {
        q + 1
    } else {
        q
    };
    assert(t == rounded_tenths(bytes as nat, unit_bytes(k as nat)));
    assert(t / 10 <= u64::MAX) by (nonlinear_arith)
        requires
            t <= n / d + 1,
            n == bytes * 10,
            d >= 1024,
            bytes <= u64::MAX,
    ;
    push_decimal(&mut s, (t / 10) as u64);
    s.append(".");
    s.append(digit_str((t % 10) as u64));
    s.append(" ");
    let unit = if k == 3 {
        "GB"
    } else if k == 2 {
        "MB"
    } else {
        "KB"
    };
    s.append(unit);
    assert(s@ =~= size_text(bytes as nat));
    s
}

} // verus!
