use vstd::arithmetic::div_mod::lemma_div_denominator;
use vstd::arithmetic::power2::{lemma_pow2_pos, lemma_pow2_unfold, pow2};
use vstd::bits::lemma_u32_shr_is_div;
use vstd::prelude::*;

verus! {

/// The digit that shows a bit.
pub open spec fn digit_char(bit: nat) -> char {
    if bit == 1 {
        '1'
    } else {
        '0'
    }
}

/// The low `w` bits of `n`, most significant first.
pub open spec fn binary_digits(n: nat, w: nat) -> Seq<char>
    decreases w,
{
    if w == 0 {
        Seq::empty()
    } else {
        binary_digits(n / 2, (w - 1) as nat).push(digit_char(n % 2))
    }
}

pub open spec fn is_binary_digit(c: char) -> bool {
    c == '0' || c == '1'
}

/// The number that a string of binary digits writes, most significant first.
pub open spec fn binary_value(s: Seq<char>) -> nat
    decreases s.len(),
{
    if s.len() == 0 {
        0
    } else {
        2 * binary_value(s.drop_last()) + if s.last() == '1' {
            1nat
        } else {
            0nat
        }
    }
}

/// What reading `s` as a binary number gives: a value when `s` is a non-empty
/// string of binary digits whose value fits in a `u32`.
pub open spec fn parsed(s: Seq<char>) -> Option<u32> {
    if s.len() > 0 && (forall|i: int| 0 <= i < s.len() ==> is_binary_digit(#[trigger] s[i]))
        && binary_value(s) <= u32::MAX {
        Some(binary_value(s) as u32)
    } else {
        None
    }
}

/// Writes the low `width` bits of `i` in binary, padded on the left with zeros.
pub fn format_binary(i: u32, width: u32) -> (r: String)
    requires
        width <= 32,
    ensures
        r@ == binary_digits(i as nat, width as nat),
{
    let mut r = String::new();
    let mut k: u32 = 0;
    proof {
        vstd::arithmetic::power2::lemma2_to64();
    }
    while k < width
        invariant
            k <= width <= 32,
            r@ == binary_digits(i as nat / pow2((width - k) as nat), k as nat),
        decreases width - k,
    {
        let m: u32 = width - k - 1;
        let n: u32 = i >> m;
        proof {
            lemma_u32_shr_is_div(i, m);
            lemma_pow2_pos(m as nat);
            lemma_pow2_unfold((m + 1) as nat);
            lemma_div_denominator(i as int, pow2(m as nat) as int, 2);
            reveal_strlit("0");
            reveal_strlit("1");
        }
        if n % 2 == 1 {
            r.append("1");
        } else {
            r.append("0");
        }
        k = k + 1;
    }
    proof {
        vstd::arithmetic::power2::lemma2_to64();
        assert(i as nat / pow2(0) == i as nat);
    }
    r
}

/// Extending a string never lowers its binary value.
proof fn lemma_value_grows(s: Seq<char>, k: int, j: int)
    requires
        0 <= k <= j <= s.len(),
    ensures
        binary_value(s.take(k)) <= binary_value(s.take(j)),
    decreases j - k,
{
    if k < j {
        lemma_value_grows(s, k, j - 1);
        assert(s.take(j).drop_last() == s.take(j - 1));
    }
}

/// Reads a non-empty string of binary digits, most significant first.
///
/// Gives `None` for an empty string, a character other than `0` or `1`, or a
/// value that does not fit in a `u32`.
pub fn parse_binary(s: &str) -> (r: Option<u32>)
    ensures
        r == parsed(s@),
{
    let n = s.unicode_len();
    if n == 0 {
        return None;
    }
    let mut v: u64 = 0;
    let mut i: usize = 0;
    assert(s@.take(0) == Seq::<char>::empty());
    while i < n
        invariant
            n == s@.len(),
            i <= n,
            v as nat == binary_value(s@.take(i as int)),
            v <= u32::MAX,
            forall|j: int| 0 <= j < i ==> is_binary_digit(#[trigger] s@[j]),
        decreases n - i,
    {
        let c = s.get_char(i);
        assert(s@.take(i + 1).drop_last() == s@.take(i as int));
        if c == '1' {
            v = 2 * v + 1;
        } else if c == '0' {
            v = 2 * v;
        } else {
            return None;
        }
        i = i + 1;
        if v > u32::MAX as u64 {
            proof {
                lemma_value_grows(s@, i as int, n as int);
                assert(s@.take(n as int) == s@);
            }
            return None;
        }
    }
    assert(s@.take(n as int) == s@);
    Some(v as u32)
}

/// The digits of a number below `2^w` read back as that number.
pub proof fn lemma_digits_value(n: nat, w: nat)
    requires
        n < pow2(w),
    ensures
        binary_value(binary_digits(n, w)) == n,
        binary_digits(n, w).len() == w,
        forall|i: int| 0 <= i < w ==> is_binary_digit(#[trigger] binary_digits(n, w)[i]),
    decreases w,
{
    if w == 0 {
        vstd::arithmetic::power2::lemma2_to64();
    } else {
        lemma_pow2_unfold(w);
        lemma_digits_value(n / 2, (w - 1) as nat);
        let d = binary_digits(n, w);
        assert(d.drop_last() == binary_digits(n / 2, (w - 1) as nat));
        assert forall|i: int| 0 <= i < w implies is_binary_digit(#[trigger] d[i]) by {
            if i < w - 1 {
                assert(d[i] == binary_digits(n / 2, (w - 1) as nat)[i]);
            }
        }
    }
}

/// Writing an index of `l` bits in binary and reading it back gives the
/// index, for every `l` in `[1, 32]` and every index below `2^l`.
pub proof fn lemma_format_parse_round_trip(i: u32, l: u32)
    requires
        1 <= l <= 32,
        (i as nat) < pow2(l as nat),
    ensures
        parsed(binary_digits(i as nat, l as nat)) == Some(i),
{
    lemma_digits_value(i as nat, l as nat);
}

} // verus!
