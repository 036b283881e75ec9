use vstd::prelude::*;
use vstd::string::StringExecFns;

verus! {

pub open spec fn digit_char(d: int) -> char {
    seq!['0', '1', '2', '3', '4', '5', '6', '7', '8', '9'][d]
}

/// The decimal digits of `n`, without leading zeros.
pub open spec fn decimal(n: nat) -> Seq<char>
    decreases n,
{
    if n < 10 {
        seq![digit_char(n as int)]
    } else {
        decimal(n / 10).push(digit_char((n % 10) as int))
    }
}

/// The two decimals of a percentage in hundredths, as its shortest
/// decimal form shows them: none, one, or two.
pub open spec fn fraction_text(frac: int) -> Seq<char> {
    if frac == 0 {
        Seq::empty()
    } else if frac % 10 == 0 {
        seq!['.', digit_char(frac / 10)]
    } else {
        seq!['.', digit_char(frac / 10), digit_char(frac % 10)]
    }
}

/// The text shown for percentage `p`, in hundredths: its shortest decimal
/// form followed by `%` (`8437` reads `84.37%`, `7930` reads `79.3%`,
/// `7900` reads `79%`).
pub open spec fn label_of(p: int) -> Seq<char> {
    let a = if p < 0 {
        -p
    } else {
        p
    };
    let sign = if p < 0 {
        seq!['-']
    } else {
        Seq::empty()
    };
    sign + decimal((a / 100) as nat) + fraction_text(a % 100) + seq!['%']
}

fn digit_str(d: u64) -> (r: &'static str)
    requires
        d < 10,
    ensures
        r@ == seq![digit_char(d as int)],
{
    proof {
        reveal_strlit("0");
        reveal_strlit("1");
        reveal_strlit("2");
        reveal_strlit("3");
        reveal_strlit("4");
        reveal_strlit("5");
        reveal_strlit("6");
        reveal_strlit("7");
        reveal_strlit("8");
        reveal_strlit("9");
    }
    let r = if d == 0 {
        "0"
    } else if d == 1 {
        "1"
    } else if d == 2 {
        "2"
    } else if d == 3 {
        "3"
    } else if d == 4 {
        "4"
    } else if d == 5 {
        "5"
    } else if d == 6 {
        "6"
    } else if d == 7 {
        "7"
    } else if d == 8 {
        "8"
    } else {
        "9"
    };
    assert(r@ =~= seq![digit_char(d as int)]);
    r
}

fn push_decimal(out: &mut String, n: u64)
    ensures
        final(out)@ == old(out)@ + decimal(n as nat),
    decreases n,
{
    if n >= 10 {
        push_decimal(out, n / 10);
    }
    out.append(digit_str(n % 10));
    assert(final(out)@ =~= old(out)@ + decimal(n as nat));
}

/// The text to show for percentage `p`, in hundredths: its shortest decimal
/// form followed by `%`.
pub fn pct_label(p: i64) -> (r: String)
    ensures
        r@ == label_of(p as int),
{
    let mut out = String::new();
    proof {
        reveal_strlit("-");
        reveal_strlit(".");
        reveal_strlit("%");
    }
    if p < 0 {
        out.append("-");
    }
    let a: u64 = if p < 0 {
        (-(p as i128)) as u64
    } else {
        p as u64
    };
    push_decimal(&mut out, a / 100);
    let frac = a % 100;
    if frac != 0 {
        out.append(".");
        out.append(digit_str(frac / 10));
        if frac % 10 != 0 {
            out.append(digit_str(frac % 10));
        }
    }
    out.append("%");
    assert(out@ =~= label_of(p as int));
    out
}

} // verus!
