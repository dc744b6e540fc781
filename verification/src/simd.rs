use vstd::prelude::*;

verus! {

/// Σ a[i]·b[i] over the first `n` positions.
pub open spec fn sum_products(a: Seq<u8>, b: Seq<u8>, n: int) -> int
    decreases n,
{
    if n <= 0 {
        0
    } else {
        sum_products(a, b, n - 1) + a[n - 1] * b[n - 1]
    }
}

/// Σ a[i] over the first `n` positions.
pub open spec fn sum_bytes(a: Seq<u8>, n: int) -> int
    decreases n,
{
    if n <= 0 {
        0
    } else {
        sum_bytes(a, n - 1) + a[n - 1]
    }
}

proof fn lemma_sums_monotone(a: Seq<u8>, b: Seq<u8>, i: int, n: int)
    requires
        0 <= i <= n,
    ensures
        0 <= sum_products(a, b, i) <= sum_products(a, b, n),
        0 <= sum_bytes(a, i) <= sum_bytes(a, n),
        0 <= sum_bytes(b, i) <= sum_bytes(b, n),
    decreases n,
{
    if n > 0 && i < n {
        lemma_sums_monotone(a, b, i, n - 1);
        assert(a[n - 1] * b[n - 1] >= 0) by (nonlinear_arith);
    } else if n > 0 {
        lemma_sums_monotone(a, b, n - 1, n - 1);
        assert(a[n - 1] * b[n - 1] >= 0) by (nonlinear_arith);
    }
}

/// Integer kernel of the 8-bit quantized dot product: adds Σ a[i]·b[i],
/// Σ a[i] and Σ b[i], over the positions of `a`, to the three running sums.
pub fn dot_product_f8(a: &[u8], b: &[u8], sums: &mut (u32, u32, u32))
    requires
        a@.len() <= b@.len(),
        old(sums).0 + sum_products(a@, b@, a@.len() as int) <= u32::MAX,
        old(sums).1 + sum_bytes(a@, a@.len() as int) <= u32::MAX,
        old(sums).2 + sum_bytes(b@, a@.len() as int) <= u32::MAX,
    ensures
        final(sums).0 == old(sums).0 + sum_products(a@, b@, a@.len() as int),
        final(sums).1 == old(sums).1 + sum_bytes(a@, a@.len() as int),
        final(sums).2 == old(sums).2 + sum_bytes(b@, a@.len() as int),
{
    let len = a.len();
    let ghost start = *sums;
    let mut i: usize = 0;
    while i < len
        invariant
            len == a@.len(),
            len <= b@.len(),
            i <= len,
            start.0 + sum_products(a@, b@, len as int) <= u32::MAX,
            start.1 + sum_bytes(a@, len as int) <= u32::MAX,
            start.2 + sum_bytes(b@, len as int) <= u32::MAX,
            sums.0 == start.0 + sum_products(a@, b@, i as int),
            sums.1 == start.1 + sum_bytes(a@, i as int),
            sums.2 == start.2 + sum_bytes(b@, i as int),
        decreases len - i,
    {
        proof {
            lemma_sums_monotone(a@, b@, i + 1, len as int);
        }
        let x = a[i] as u32;
        let y = b[i] as u32;
        assert(x * y <= 255 * 255) by (nonlinear_arith)
            requires
                x <= 255,
                y <= 255,
        ;
        sums.0 = sums.0 + x * y;
        sums.1 = sums.1 + x;
        sums.2 = sums.2 + y;
        i = i + 1;
    }
}

/// Σ a[i]·b[i], Σ a[i] and Σ b[i] of two quantized vectors of one length,
/// or `None` where one of the three does not fit a `u32`.
pub fn byte_sums(a: &[u8], b: &[u8]) -> (r: Option<(u32, u32, u32)>)
    requires
        a@.len() == b@.len(),
    ensures
        match r {
            Some(t) => {
                &&& t.0 == sum_products(a@, b@, a@.len() as int)
                &&& t.1 == sum_bytes(a@, a@.len() as int)
                &&& t.2 == sum_bytes(b@, a@.len() as int)
            },
            None => {
                ||| sum_products(a@, b@, a@.len() as int) > u32::MAX
                ||| sum_bytes(a@, a@.len() as int) > u32::MAX
                ||| sum_bytes(b@, a@.len() as int) > u32::MAX
            },
        },
{
    let len = a.len();
    let mut sum_ab: u32 = 0;
    let mut sum_a: u32 = 0;
    let mut sum_b: u32 = 0;
    let mut i: usize = 0;
    while i < len
        invariant
            len == a@.len(),
            len == b@.len(),
            i <= len,
            sum_ab == sum_products(a@, b@, i as int),
            sum_a == sum_bytes(a@, i as int),
            sum_b == sum_bytes(b@, i as int),
        decreases len - i,
    {
        proof {
            lemma_sums_monotone(a@, b@, i + 1, len as int);
        }
        let x = a[i] as u32;
        let y = b[i] as u32;
        assert(x * y <= 255 * 255) by (nonlinear_arith)
            requires
                x <= 255,
                y <= 255,
        ;
        let p = x * y;
        match sum_ab.checked_add(p) {
            Some(v) => sum_ab = v,
            None => return None,
        }
        match sum_a.checked_add(x) {
            Some(v) => sum_a = v,
            None => return None,
        }
        match sum_b.checked_add(y) {
            Some(v) => sum_b = v,
            None => return None,
        }
        i = i + 1;
    }
    Some((sum_ab, sum_a, sum_b))
}

} // verus!
