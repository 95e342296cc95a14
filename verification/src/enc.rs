use vstd::prelude::*;

verus! {

/// The ASCII decimal rendering of `n`, most significant digit first, with
/// no leading zeros (zero itself renders as "0").
pub open spec fn decimal_octets(n: nat) -> Seq<u8>
    decreases n,
{
    if n < 10 {
        seq![(0x30 + n) as u8]
    } else {
        decimal_octets(n / 10).push((0x30 + n % 10) as u8)
    }
}

/// Render `n` in ASCII decimal with no leading zeros.
pub(crate) fn decimal_bytes(n: usize) -> (r: Vec<u8>)
    ensures
        r@ == decimal_octets(n as nat),
    decreases n,
{
    if n < 10 {
        vec![0x30u8 + n as u8]
    } else {
        let mut r = decimal_bytes(n / 10);
        r.push(0x30u8 + (n % 10) as u8);
        r
    }
}

/// Append every byte of `src` to `dst`, in order.
pub(crate) fn push_bytes(dst: &mut Vec<u8>, src: &Vec<u8>)
    ensures
        final(dst)@ == old(dst)@ + src@,
{
    let mut i: usize = 0;
    while i < src.len()
        invariant
            i <= src.len(),
            dst@ == old(dst)@ + src@.take(i as int),
        decreases src.len() - i,
    {
        dst.push(src[i]);
        proof {
            assert(old(dst)@ + src@.take(i as int) + seq![src@[i as int]] =~= old(dst)@
                + src@.take(i + 1));
        }
        i += 1;
    }
    proof {
        assert(old(dst)@ + src@.take(src@.len() as int) =~= old(dst)@ + src@);
    }
}

/// A fresh vector holding the same bytes as `src`.
pub(crate) fn copy_bytes(src: &Vec<u8>) -> (r: Vec<u8>)
    ensures
        r@ == src@,
{
    let mut r: Vec<u8> = Vec::new();
    push_bytes(&mut r, src);
    r
}

/// The decimal rendering is never empty, and starts with '0' only for
/// the value zero itself.
pub proof fn lemma_decimal_leading(n: nat)
    ensures
        decimal_octets(n).len() >= 1,
        n > 0 ==> decimal_octets(n)[0] != 0x30,
    decreases n,
{
    if n >= 10 {
        lemma_decimal_leading(n / 10);
        assert(decimal_octets(n)[0] == decimal_octets(n / 10)[0]);
    }
}

} // verus!
