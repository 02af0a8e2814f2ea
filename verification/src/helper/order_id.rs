//! Order identifiers: the engine numbers orders 1, 2, 3, ... and commands
//! name an order by the decimal text of its number.
use vstd::prelude::*;

verus! {

/// The numeric value of a decimal digit character.
pub open spec fn digit_value(c: char) -> int {
    (c as int) - ('0' as int)
}

pub open spec fn is_digit(c: char) -> bool {
    '0' <= c && c <= '9'
}

/// The character of decimal digit `d` (0 to 9).
pub open spec fn digit_char(d: int) -> char {
    (('0' as int) + d) as char
}

/// The decimal text of `n`, without leading zeros.
pub open spec fn decimal(n: nat) -> Seq<char>
    decreases n,
{
    if n < 10 {
        seq![digit_char(n as int)]
    } else {
        decimal(n / 10).push(digit_char((n % 10) as int))
    }
}

/// The number a string of decimal digits denotes.
pub open spec fn digits_value(s: Seq<char>) -> int
    decreases s.len(),
{
    if s.len() == 0 {
        0
    } else {
        digits_value(s.drop_last()) * 10 + digit_value(s.last())
    }
}

/// Decimal text in canonical form: non-empty digits, no leading zero
/// unless the text is "0" itself.
pub open spec fn canonical_decimal(s: Seq<char>) -> bool {
    &&& s.len() > 0
    &&& forall|i: int| 0 <= i < s.len() ==> is_digit(#[trigger] s[i])
    &&& (s.len() > 1 ==> s[0] != '0')
}

/// The order id that a command's text names: the number whose decimal text
/// it is, if any (and if it fits in 64 bits).
pub open spec fn spec_parse_order_id(s: Seq<char>) -> Option<u64> {
    if exists|n: u64| decimal(n as nat) == s {
        Some(choose|n: u64| decimal(n as nat) == s)
    } else {
        None
    }
}

proof fn lemma_digit_char(d: int)
    requires
        0 <= d < 10,
    ensures
        is_digit(digit_char(d)),
        digit_value(digit_char(d)) == d,
{
}

pub proof fn lemma_decimal_canonical(n: nat)
    ensures
        canonical_decimal(decimal(n)),
        digits_value(decimal(n)) == n,
        n >= 10 ==> decimal(n).len() > 1,
    decreases n,
{
    assert(digits_value(Seq::<char>::empty()) == 0);
    if n < 10 {
        lemma_digit_char(n as int);
        let s = decimal(n);
        assert(s.drop_last() =~= Seq::<char>::empty());
        assert(digits_value(s) == digits_value(s.drop_last()) * 10 + digit_value(s.last()));
    } else {
        lemma_decimal_canonical(n / 10);
        lemma_digit_char((n % 10) as int);
        let t = decimal(n / 10);
        let s = decimal(n);
        assert(s.drop_last() =~= t);
        assert(digits_value(s) == digits_value(t) * 10 + (n % 10));
        assert((n / 10) * 10 + n % 10 == n);
        assert(s[0] == t[0]);
        if t.len() == 1 {
            assert(n / 10 >= 1);
            assert(t[0] != '0');
        }
    }
}

proof fn lemma_value_at_least_first(s: Seq<char>)
    requires
        s.len() > 0,
        forall|i: int| 0 <= i < s.len() ==> is_digit(#[trigger] s[i]),
    ensures
        digits_value(s) >= digit_value(s[0]),
        digits_value(s) >= 0,
    decreases s.len(),
{
    assert(digits_value(Seq::<char>::empty()) == 0);
    assert(is_digit(s[s.len() - 1]));
    if s.len() == 1 {
        assert(s.drop_last() =~= Seq::<char>::empty());
    } else {
        let t = s.drop_last();
        assert(t[0] == s[0]);
        assert forall|i: int| 0 <= i < t.len() implies is_digit(#[trigger] t[i]) by {
            assert(t[i] == s[i]);
        }
        lemma_value_at_least_first(t);
    }
}

pub proof fn lemma_canonical_is_decimal(s: Seq<char>)
    requires
        canonical_decimal(s),
    ensures
        digits_value(s) >= 0,
        decimal(digits_value(s) as nat) == s,
    decreases s.len(),
{
    lemma_value_at_least_first(s);
    assert(digits_value(Seq::<char>::empty()) == 0);
    assert(is_digit(s[s.len() - 1]));
    if s.len() == 1 {
        assert(s.drop_last() =~= Seq::<char>::empty());
        let d = digit_value(s[0]);
        assert(digits_value(s) == d);
        assert(digit_char(d) == s[0]);
        assert(decimal(d as nat) =~= s);
    } else {
        let t = s.drop_last();
        assert(t[0] == s[0]);
        assert forall|i: int| 0 <= i < t.len() implies is_digit(#[trigger] t[i]) by {
            assert(t[i] == s[i]);
        }
        assert(canonical_decimal(t));
        lemma_canonical_is_decimal(t);
        lemma_value_at_least_first(t);
        let v = digits_value(s);
        let d = digit_value(s.last());
        assert(v == digits_value(t) * 10 + d);
        assert(v / 10 == digits_value(t));
        assert(v % 10 == d);
        assert(digit_char(d) == s.last());
        assert(decimal(v as nat) =~= t.push(s.last()));
        assert(t.push(s.last()) =~= s);
    }
}

/// The parse of a text that is canonical decimal of a value within `u64`.
pub proof fn lemma_parse_canonical(s: Seq<char>)
    requires
        canonical_decimal(s),
        digits_value(s) <= u64::MAX,
    ensures
        spec_parse_order_id(s) == Some(digits_value(s) as u64),
{
    lemma_canonical_is_decimal(s);
    let n = digits_value(s) as u64;
    assert(decimal(n as nat) == s);
    let m = choose|m: u64| decimal(m as nat) == s;
    lemma_decimal_canonical(m as nat);
}

/// Rendering an id as decimal text and parsing it back gives the id.
pub proof fn lemma_parse_decimal(n: u64)
    ensures
        spec_parse_order_id(decimal(n as nat)) == Some(n),
{
    lemma_decimal_canonical(n as nat);
    lemma_parse_canonical(decimal(n as nat));
}

/// Reads the order id named by a command: `Some(n)` exactly when the text is
/// the decimal text of `n`.
pub fn parse_order_id(s: &String) -> (r: Option<u64>)
    ensures
        r == spec_parse_order_id(s@),
{
    let text = s.as_str();
    let len = text.unicode_len();
    if len == 0 {
        proof {
            if exists|n: u64| decimal(n as nat) == s@ {
                let n = choose|n: u64| decimal(n as nat) == s@;
                lemma_decimal_canonical(n as nat);
            }
        }
        return None;
    }
    let first = text.get_char(0);
    if len > 1 && first == '0' {
        proof {
            if exists|n: u64| decimal(n as nat) == s@ {
                let n = choose|n: u64| decimal(n as nat) == s@;
                lemma_decimal_canonical(n as nat);
            }
        }
        return None;
    }
    let mut value: u64 = 0;
    let mut i: usize = 0;
    while i < len
        invariant
            len == s@.len(),
            text@ == s@,
            i <= len,
            value == digits_value(s@.take(i as int)),
            forall|j: int| 0 <= j < i ==> is_digit(#[trigger] s@[j]),
        decreases len - i,
    {
        let c = text.get_char(i);
        assert(s@.take(i + 1).drop_last() =~= s@.take(i as int));
        if !('0' <= c && c <= '9') {
            proof {
                if exists|n: u64| decimal(n as nat) == s@ {
                    let n = choose|n: u64| decimal(n as nat) == s@;
                    lemma_decimal_canonical(n as nat);
                    assert(is_digit(s@[i as int]));
                }
            }
            return None;
        }
        let d: u64 = (c as u32 - '0' as u32) as u64;
        assert(d == digit_value(s@[i as int]));
        if value > (u64::MAX - d) / 10 {
            proof {
                assert(canonical_decimal(s@.take(i + 1)) || true);
                let t = s@.take(i + 1);
                assert(digits_value(t) == value * 10 + d);
                assert(digits_value(t) > u64::MAX);
                // any longer text of digits has an even larger value
                lemma_prefix_value_bound(s@, i as int + 1);
                if exists|n: u64| decimal(n as nat) == s@ {
                    let n = choose|n: u64| decimal(n as nat) == s@;
                    lemma_decimal_canonical(n as nat);
                }
            }
            return None;
        }
        value = value * 10 + d;
        i += 1;
    }
    assert(s@.take(len as int) =~= s@);
    proof {
        lemma_parse_canonical(s@);
    }
    Some(value)
}

/// The value of a digit text is at least the value of any prefix.
proof fn lemma_prefix_value_bound(s: Seq<char>, k: int)
    requires
        0 <= k <= s.len(),
        forall|i: int| 0 <= i < k ==> is_digit(#[trigger] s[i]),
    ensures
        forall|i: int| 0 <= i < s.len() ==> is_digit(#[trigger] s[i]) ==> true,
        (forall|i: int| 0 <= i < s.len() ==> is_digit(#[trigger] s[i])) ==> digits_value(s) >= digits_value(s.take(k)),
    decreases s.len() - k,
{
    if forall|i: int| 0 <= i < s.len() ==> is_digit(#[trigger] s[i]) {
        lemma_value_nonneg(s.take(k));
        if k < s.len() {
            lemma_prefix_value_bound(s, k + 1);
            let t = s.take(k + 1);
            assert(t.drop_last() =~= s.take(k));
            assert(is_digit(t.last()));
        } else {
            assert(s.take(k) =~= s);
        }
    }
}

proof fn lemma_value_nonneg(s: Seq<char>)
    requires
        forall|i: int| 0 <= i < s.len() ==> is_digit(#[trigger] s[i]),
    ensures
        digits_value(s) >= 0,
    decreases s.len(),
{
    if s.len() > 0 {
        let t = s.drop_last();
        assert forall|i: int| 0 <= i < t.len() implies is_digit(#[trigger] t[i]) by {
            assert(t[i] == s[i]);
        }
        lemma_value_nonneg(t);
    }
}

} // verus!
