use vstd::prelude::*;

use crate::text::{decimal, push_decimal, push_two_digits, two_digits};

verus! {

/// `1024` to the power `k`.
pub open spec fn pow1024(k: nat) -> nat
    decreases k,
{
    if k == 0 {
        1
    } else {
        1024 * pow1024((k - 1) as nat)
    }
}

/// The largest unit index `j` with `k <= j <= 8` such that every step up
/// from `k` to `j` still leaves at least `1024` of the unit below.
pub open spec fn unit_from(bytes: nat, k: nat) -> nat
    decreases 8 - k,
{
    if k < 8 && bytes >= pow1024(k + 1) {
        unit_from(bytes, k + 1)
    } else {
        k
    }
}

/// Symbol of the unit with index `k`.
pub open spec fn unit_symbol(k: nat) -> Seq<char> {
    if k == 0 {
        seq!['B']
    } else if k == 1 {
        seq!['K', 'B']
    } else if k == 2 {
        seq!['M', 'B']
    } else if k == 3 {
        seq!['G', 'B']
    } else if k == 4 {
        seq!['T', 'B']
    } else if k == 5 {
        seq!['P', 'B']
    } else if k == 6 {
        seq!['E', 'B']
    } else if k == 7 {
        seq!['Z', 'B']
    } else {
        seq!['Y', 'B']
    }
}

/// `n / d` rounded to the nearest integer, ties to the even one.
pub open spec fn div_round_even(n: nat, d: nat) -> nat {
    let q = n / d;
    let r = n % d;
    if 2 * r > d || (2 * r == d && q % 2 == 1) {
        q + 1
    } else {
        q
    }
}

/// Human-readable text of a byte count: plain bytes below one kibibyte,
/// otherwise the count in the largest binary unit that keeps it at least
/// one, with two decimals.
pub open spec fn human_bytes_text(bytes: nat) -> Seq<char> {
    if bytes < 1024 {
        decimal(bytes) + seq![' ', 'B']
    } else {
        let k = unit_from(bytes, 0);
        let h = div_round_even(bytes * 100, pow1024(k));
        decimal(h / 100) + seq!['.'] + two_digits(h % 100) + seq![' '] + unit_symbol(k)
    }
}

fn unit_str(k: u64) -> (r: &'static str)
    requires
        k <= 8,
    ensures
        r@ == unit_symbol(k as nat),
{
    proof {
        reveal_strlit("B");
        reveal_strlit("KB");
        reveal_strlit("MB");
        reveal_strlit("GB");
        reveal_strlit("TB");
        reveal_strlit("PB");
        reveal_strlit("EB");
        reveal_strlit("ZB");
        reveal_strlit("YB");
    }
    if k == 0 {
        "B"
    } else if k == 1 {
        "KB"
    } else if k == 2 {
        "MB"
    } else if k == 3 {
        "GB"
    } else if k == 4 {
        "TB"
    } else if k == 5 {
        "PB"
    } else if k == 6 {
        "EB"
    } else if k == 7 {
        "ZB"
    } else {
        "YB"
    }
}

/// Formats a byte count for display, e.g. `"500 B"`, `"1.00 KB"`.
pub fn human_readable_byte(bytes: u64) -> (r: String)
    ensures
        r@ == human_bytes_text(bytes as nat),
{
    let mut out = String::new();
    if bytes < 1024 {
        push_decimal(&mut out, bytes);
        proof {
            reveal_strlit(" B");
        }
        out.append(" B");
        return out;
    }
    let mut k: u64 = 0;
    let mut div: u64 = 1;
    while k < 8 && bytes / div >= 1024
        invariant
            k <= 8,
            div as nat == pow1024(k as nat),
            div >= 1,
            div <= bytes,
            unit_from(bytes as nat, k as nat) == unit_from(bytes as nat, 0),
        decreases 8 - k,
    {
        proof {
            assert(bytes as nat >= div * 1024) by (nonlinear_arith)
                requires
                    (bytes as nat) / (div as nat) >= 1024,
                    div >= 1,
            ;
            assert(pow1024((k + 1) as nat) == 1024 * pow1024(k as nat));
        }
        div = div * 1024;
        k = k + 1;
    }
    proof {
        if k < 8 {
            assert((bytes as nat) / (div as nat) < 1024);
            assert(bytes < div * 1024) by (nonlinear_arith)
                requires
                    (bytes as nat) / (div as nat) < 1024,
                    div >= 1,
            ;
            assert(pow1024((k + 1) as nat) == 1024 * pow1024(k as nat));
        }
    }
    let n: u128 = (bytes as u128) * 100;
    let q: u128 = n / (div as u128);
    let rem: u128 = n % (div as u128);
    let h: u128 = if 2 * rem > div as u128 || (2 * rem == div as u128 && q % 2 == 1) {
        q + 1
    } else {
        q
    };
    proof {
        assert(q <= n) by (nonlinear_arith)
            requires
                q == n / (div as u128),
                div >= 1,
        ;
    }
    let whole: u64 = (h / 100) as u64;
    let frac: u64 = (h % 100) as u64;
    push_decimal(&mut out, whole);
    proof {
        reveal_strlit(".");
        reveal_strlit(" ");
    }
    out.append(".");
    push_two_digits(&mut out, frac);
    out.append(" ");
    out.append(unit_str(k));
    proof {
        assert(out@ =~= human_bytes_text(bytes as nat));
    }
    out
}

} // verus!
