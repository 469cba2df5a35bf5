//! Small helpers on byte sequences.

use vstd::prelude::*;

verus! {

/// The 16-bit number with low byte `lo` and high byte `hi`.
pub open spec fn word(lo: u8, hi: u8) -> int {
    lo + 256 * hi
}

/// The little-endian 16-bit number at offset `i`.
pub open spec fn word_at(s: Seq<u8>, i: int) -> int {
    word(s[i], s[i + 1])
}

/// The 16-bit number with low byte `lo` and high byte `hi`.
pub fn make_word(lo: u8, hi: u8) -> (w: u16)
    ensures
        w == word(lo, hi),
{
    lo as u16 + 256 * hi as u16
}

/// The low and the high byte of a 16-bit number.
pub fn split_word(w: u16) -> (r: (u8, u8))
    ensures
        word(r.0, r.1) == w,
        r.0 == w % 256,
        r.1 == w / 256,
{
    ((w % 256) as u8, (w / 256) as u8)
}

/// The bytes `s` with `t` in place of what stands at `at`, as far as `s` goes.
pub open spec fn patched(s: Seq<u8>, at: int, t: Seq<u8>) -> Seq<u8> {
    Seq::new(s.len(), |j: int| if at <= j < at + t.len() { t[j - at] } else { s[j] })
}

/// The bytes `s` with `t` in place of what stands at `at`, as far as `s` goes.
pub fn patch(s: &[u8], at: usize, t: &[u8]) -> (r: Vec<u8>)
    ensures
        r@ == patched(s@, at as int, t@),
{
    let mut r: Vec<u8> = Vec::new();
    let mut j: usize = 0;
    while j < s.len()
        invariant
            j <= s@.len(),
            r@ =~= patched(s@, at as int, t@).take(j as int),
        decreases s@.len() - j,
    {
        r.push(if at <= j && j - at < t.len() { t[j - at] } else { s[j] });
        j = j + 1;
    }
    assert(r@ =~= patched(s@, at as int, t@));
    r
}

/// Part of `data` at `from`, filled up with zeros to `size` bytes.
pub open spec fn padded_part(data: Seq<u8>, from: int, size: int) -> Seq<u8> {
    Seq::new(size as nat, |k: int| if from + k < data.len() { data[from + k] } else { 0u8 })
}

/// Part of `data` at `from`, filled up with zeros to `size` bytes.
pub fn take_part(data: &[u8], from: usize, size: usize) -> (r: Vec<u8>)
    requires
        from + size <= usize::MAX,
    ensures
        r@ == padded_part(data@, from as int, size as int),
{
    let mut r: Vec<u8> = Vec::new();
    while r.len() < size
        invariant
            r@.len() <= size,
            from + size <= usize::MAX,
            r@ =~= padded_part(data@, from as int, size as int).take(r@.len() as int),
        decreases size - r@.len(),
    {
        let at: usize = from + r.len();
        r.push(if at < data.len() { data[at] } else { 0 });
    }
    assert(r@ =~= padded_part(data@, from as int, size as int));
    r
}

/// `a / b`, rounded up.
pub open spec fn div_up(a: int, b: int) -> int {
    (a + b - 1) / b
}

/// `a / b`, rounded up.
pub fn ceil_div(a: usize, b: usize) -> (q: usize)
    requires
        b > 0,
    ensures
        q == div_up(a as int, b as int),
{
    proof {
        lemma_div_up(a as int, b as int);
    }
    let q = a / b;
    if a % b == 0 {
        q
    } else {
        q + 1
    }
}

/// Rounding up is rounding down, plus one where something is left.
pub proof fn lemma_div_up(a: int, b: int)
    requires
        a >= 0,
        b > 0,
    ensures
        a % b == 0 ==> div_up(a, b) == a / b,
        a % b != 0 ==> div_up(a, b) == a / b + 1,
        div_up(a, b) >= 0,
        div_up(a, b) <= a,
        div_up(a, b) * b >= a,
        a > 0 ==> (div_up(a, b) - 1) * b < a,
{
    let q = a / b;
    let r = a % b;
    vstd::arithmetic::div_mod::lemma_fundamental_div_mod(a, b);
    assert(a == b * q + r);
    assert(0 <= r < b);
    assert(q >= 0) by (nonlinear_arith)
        requires
            a == b * q + r,
            0 <= r < b,
            a >= 0,
            b > 0,
    ;
    if r == 0 {
        vstd::arithmetic::div_mod::lemma_fundamental_div_mod_converse(a + b - 1, b, q, b - 1);
        assert(q * b == b * q) by (nonlinear_arith);
        assert((q - 1) * b == b * q - b) by (nonlinear_arith);
        assert(q <= b * q) by (nonlinear_arith)
            requires
                b > 0,
                q >= 0,
        ;
    } else {
        assert(b * (q + 1) == b * q + b) by (nonlinear_arith);
        vstd::arithmetic::div_mod::lemma_fundamental_div_mod_converse(a + b - 1, b, q + 1, r - 1);
        assert((q + 1) * b == b * q + b) by (nonlinear_arith);
        assert(q * b == b * q) by (nonlinear_arith);
        assert(q <= b * q) by (nonlinear_arith)
            requires
                b > 0,
                q >= 0,
        ;
    }
}

}
