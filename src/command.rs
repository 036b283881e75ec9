use vstd::prelude::*;

verus! {

/// One volume adjustment, as sent by a client.
#[derive(Debug, Clone, Copy, PartialEq, Eq, Structural)]
pub enum Msg {
    /// Raise the volume by this many percentage points.
    Inc(u32),
    /// Lower the volume by this many percentage points.
    Dec(u32),
    /// Leave the volume as it is.
    Nop,
}

pub open spec fn is_digit(c: char) -> bool {
    '0' <= c && c <= '9'
}

pub open spec fn digit_value(c: char) -> nat {
    (c as nat - '0' as nat) as nat
}

/// The number written by a sequence of decimal digits.
pub open spec fn digits_value(d: Seq<char>) -> nat
    decreases d.len(),
{
    if d.len() == 0 {
        0
    } else {
        digits_value(d.drop_last()) * 10 + digit_value(d.last())
    }
}

/// The digits of an unsigned number: one optional leading `+` is dropped.
pub open spec fn unsigned_digits(s: Seq<char>) -> Seq<char> {
    if s.len() > 0 && s[0] == '+' {
        s.drop_first()
    } else {
        s
    }
}

/// What reading `s` as an unsigned 32-bit decimal number gives: at least one
/// digit after an optional `+`, nothing else, and a value that fits.
pub open spec fn u32_of(s: Seq<char>) -> Option<u32> {
    let d = unsigned_digits(s);
    if d.len() > 0 && (forall|i: int| 0 <= i < d.len() ==> is_digit(#[trigger] d[i]))
        && digits_value(d) <= u32::MAX {
        Some(digits_value(d) as u32)
    } else {
        None
    }
}

/// The amount carried by a message: a malformed number counts as zero.
pub open spec fn amount_of(payload: Seq<char>) -> u32 {
    match u32_of(payload) {
        Some(n) => n,
        None => 0,
    }
}

/// What a message asks for: `+` then an amount, `-` then an amount, or
/// nothing at all.
pub open spec fn msg_of(s: Seq<char>) -> Msg {
    if s.len() > 0 && s[0] == '+' {
        Msg::Inc(amount_of(s.drop_first()))
    } else if s.len() > 0 && s[0] == '-' {
        Msg::Dec(amount_of(s.drop_first()))
    } else {
        Msg::Nop
    }
}

proof fn lemma_digits_value_prefix(d: Seq<char>, k: int)
    requires
        0 <= k <= d.len(),
    ensures
        digits_value(d.take(k)) <= digits_value(d),
    decreases d.len(),
{
    if k < d.len() {
        assert(d.drop_last().take(k) =~= d.take(k));
        lemma_digits_value_prefix(d.drop_last(), k);
    } else {
        assert(d.take(k) =~= d);
    }
}

/// Reads `s` as an unsigned 32-bit decimal number, as std's `u32` parsing
/// does.
pub fn parse_u32(s: &str) -> (r: Option<u32>)
    ensures
        r == u32_of(s@),
{
    let n = s.unicode_len();
    let mut start: usize = 0;
    if n > 0 && s.get_char(0) == '+' {
        start = 1;
    }
    let ghost d = unsigned_digits(s@);
    assert(d =~= s@.subrange(start as int, n as int));
    if start == n {
        return None;
    }
    let mut acc: u32 = 0;
    let mut i: usize = start;
    while i < n
        invariant
            start <= i <= n,
            n == s@.len(),
            d =~= s@.subrange(start as int, n as int),
            d == unsigned_digits(s@),
            forall|j: int| 0 <= j < i - start ==> is_digit(#[trigger] d[j]),
            acc as nat == digits_value(d.take(i - start)),
        decreases n - i,
    {
        let c = s.get_char(i);
        if !('0' <= c && c <= '9') {
            proof {
                let k = i - start;
                assert(!is_digit(d[k]));
                assert(!(forall|j: int| 0 <= j < d.len() ==> is_digit(#[trigger] d[j])));
            }
            return None;
        }
        let dig = (c as u32) - ('0' as u32);
        assert(d[i - start] == c);
        assert(d.take(i + 1 - start).drop_last() =~= d.take(i - start));
        assert(d.take(i + 1 - start).last() == c);
        assert(digits_value(d.take(i + 1 - start)) == acc * 10 + dig);
        if acc > (u32::MAX - dig) / 10 {
            proof {
                assert(acc * 10 + dig > u32::MAX) by (nonlinear_arith)
                    requires
                        acc > (u32::MAX - dig) / 10,
                        dig <= 9,
                ;
                lemma_digits_value_prefix(d, i + 1 - start);
            }
            return None;
        }
        acc = acc * 10 + dig;
        i = i + 1;
    }
    assert(d.take(n - start) =~= d);
    Some(acc)
}

/// Reads one message: a leading `+` or `-` and the amount after it, where a
/// malformed amount counts as zero; any other message, the empty one
/// included, asks for nothing.
pub fn parse_msg(msg: &str) -> (r: Msg)
    ensures
        r == msg_of(msg@),
{
    let n = msg.unicode_len();
    if n == 0 {
        return Msg::Nop;
    }
    let first = msg.get_char(0);
    if first == '+' || first == '-' {
        let payload = msg.substring_char(1, n);
        assert(payload@ =~= msg@.drop_first());
        let amount = match parse_u32(payload) {
            Some(a) => a,
            None => 0,
        };
        if first == '+' {
            Msg::Inc(amount)
        } else {
            Msg::Dec(amount)
        }
    } else {
        Msg::Nop
    }
}

} // verus!
