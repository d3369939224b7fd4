use vstd::prelude::*;

verus! {

/// Little-endian base-128 encoding of an unsigned integer: each byte carries
/// seven value bits, low group first, and the high bit is set on every byte
/// except the last.
pub open spec fn varint(n: nat) -> Seq<u8>
    decreases n,
{
    if n < 128 {
        seq![n as u8]
    } else {
        seq![(128 + n % 128) as u8] + varint(n / 128)
    }
}

/// Number of bytes `varint(n)` occupies.
pub open spec fn varint_len(n: nat) -> nat
    decreases n,
{
    if n < 128 {
        1
    } else {
        1 + varint_len(n / 128)
    }
}

pub proof fn lemma_varint_len(n: nat)
    ensures
        varint(n).len() == varint_len(n),
        1 <= varint_len(n),
    decreases n,
{
    if n >= 128 {
        lemma_varint_len(n / 128);
    }
}

/// 128^k, the number of values a k-byte varint can carry.
pub open spec fn pow128(k: nat) -> nat
    decreases k,
{
    if k == 0 {
        1
    } else {
        128 * pow128((k - 1) as nat)
    }
}

pub proof fn lemma_varint_len_bound(n: nat, k: nat)
    requires
        1 <= k,
        n < pow128(k),
    ensures
        varint_len(n) <= k,
    decreases k,
{
    if n >= 128 {
        assert(pow128(k) == 128 * pow128((k - 1) as nat));
        assert(n / 128 < pow128((k - 1) as nat)) by (nonlinear_arith)
            requires
                n < 128 * pow128((k - 1) as nat),
                n >= 128,
        ;
        lemma_varint_len_bound(n / 128, (k - 1) as nat);
    }
}

pub proof fn lemma_varint_len_u64(n: nat)
    requires
        n <= u64::MAX,
    ensures
        varint_len(n) <= 10,
{
    assert(pow128(10) == 1180591620717411303424) by {
        reveal_with_fuel(pow128, 11);
    };
    lemma_varint_len_bound(n, 10);
}

pub proof fn lemma_varint_len_u32(n: nat)
    requires
        n <= u32::MAX,
    ensures
        varint_len(n) <= 5,
{
    assert(pow128(5) == 34359738368) by {
        reveal_with_fuel(pow128, 6);
    };
    lemma_varint_len_bound(n, 5);
}

/// Reads a varint out of `s` starting at index `i`, giving the value and the
/// index just past it. At most `fuel` bytes are consumed; a longer run of
/// continuation bytes is malformed, as is running off the end of `s`.
pub open spec fn parse_varint_at(s: Seq<u8>, i: int, fuel: nat) -> Option<(nat, int)>
    decreases fuel,
{
    if fuel == 0 || i < 0 || i >= s.len() {
        None
    } else {
        let b = s[i];
        if b < 128 {
            Some((b as nat, i + 1))
        } else {
            match parse_varint_at(s, i + 1, (fuel - 1) as nat) {
                None => None,
                Some((v, j)) => Some((((b - 128) + 128 * v) as nat, j)),
            }
        }
    }
}

/// The ten-byte limit matches the widest encoding of a 64-bit value.
pub open spec fn parse_varint(s: Seq<u8>, i: int) -> Option<(nat, int)> {
    parse_varint_at(s, i, 10)
}

/// A varint written at `i` parses back to the value it encodes, whatever
/// follows it.
pub proof fn lemma_parse_varint_encode(s: Seq<u8>, i: int, n: nat, fuel: nat)
    requires
        varint_len(n) <= fuel,
        0 <= i,
        i + varint_len(n) <= s.len(),
        s.subrange(i, i + varint_len(n)) == varint(n),
    ensures
        parse_varint_at(s, i, fuel) == Some((n, i + varint_len(n))),
    decreases n,
{
    lemma_varint_len(n);
    assert(s[i] == s.subrange(i, i + varint_len(n))[0]);
    if n < 128 {
        assert(varint(n)[0] == n as u8);
    } else {
        assert(varint(n)[0] == (128 + n % 128) as u8);
        let rest = varint(n / 128);
        lemma_varint_len(n / 128);
        assert(s.subrange(i + 1, i + 1 + varint_len(n / 128) as int) =~= rest) by {
            assert forall|q: int| 0 <= q < varint_len(n / 128) implies s[i + 1 + q] == rest[q] by {
                assert(s[i + 1 + q] == s.subrange(i, i + varint_len(n))[1 + q]);
                assert(varint(n)[1 + q] == rest[q]);
            }
        }
        lemma_parse_varint_encode(s, i + 1, n / 128, (fuel - 1) as nat);
        assert(s[i] >= 128);
        assert((s[i] - 128) + 128 * (n / 128) == n % 128 + 128 * (n / 128));
        assert(n % 128 + 128 * (n / 128) == n) by (nonlinear_arith);
    }
}

/// A successful parse consumes at least one byte and stays within the
/// sequence and the fuel.
pub proof fn lemma_parse_varint_bounds(s: Seq<u8>, i: int, fuel: nat)
    requires
        parse_varint_at(s, i, fuel) is Some,
    ensures
        i < parse_varint_at(s, i, fuel)->Some_0.1 <= s.len(),
        parse_varint_at(s, i, fuel)->Some_0.1 - i <= fuel,
    decreases fuel,
{
    if fuel > 0 && 0 <= i < s.len() {
        if s[i] >= 128 {
            lemma_parse_varint_bounds(s, i + 1, (fuel - 1) as nat);
        }
    }
}

/// A successful parse reads only the bytes it consumed: any sequence that
/// agrees on those bytes parses the same way.
pub proof fn lemma_parse_varint_agrees(s: Seq<u8>, t: Seq<u8>, i: int, fuel: nat)
    requires
        parse_varint_at(s, i, fuel) is Some,
        parse_varint_at(s, i, fuel)->Some_0.1 <= t.len(),
        forall|q: int|
            i <= q < parse_varint_at(s, i, fuel)->Some_0.1 ==> #[trigger] t[q] == s[q],
    ensures
        parse_varint_at(t, i, fuel) == parse_varint_at(s, i, fuel),
    decreases fuel,
{
    lemma_parse_varint_bounds(s, i, fuel);
    if s[i] >= 128 {
        lemma_parse_varint_bounds(s, i + 1, (fuel - 1) as nat);
        lemma_parse_varint_agrees(s, t, i + 1, (fuel - 1) as nat);
    }
}

/// Appends the varint encoding of `n` to `buf`.
pub fn encode_varint(n: u64, buf: &mut Vec<u8>)
    ensures
        final(buf)@ == old(buf)@ + varint(n as nat),
{
    let ghost orig: Seq<u8> = buf@;
    let mut m: u64 = n;
    while m >= 128
        invariant
            orig + varint(n as nat) == buf@ + varint(m as nat),
        decreases m,
    {
        let b: u8 = (m % 128) as u8 + 128;
        let ghost pre: Seq<u8> = buf@;
        buf.push(b);
        proof {
            assert(varint(m as nat) == seq![(128 + m as nat % 128) as u8] + varint(m as nat / 128));
            assert(b == (128 + m as nat % 128) as u8);
            assert(pre + varint(m as nat) =~= buf@ + varint((m / 128) as nat));
            assert(orig + varint(n as nat) =~= buf@ + varint((m / 128) as nat));
        }
        m = m / 128;
    }
    let ghost pre: Seq<u8> = buf@;
    buf.push(m as u8);
    proof {
        assert(varint(m as nat) == seq![m as u8]);
        assert(buf@ =~= pre + varint(m as nat));
        assert(buf@ =~= orig + varint(n as nat));
    }
}

/// Reads a varint from `data` at `i`: the value and the index just past it.
/// `None` when the bytes are malformed or the value does not fit in 64 bits.
pub fn decode_varint(data: &Vec<u8>, i: usize) -> (r: Option<(u64, usize)>)
    ensures
        match parse_varint(data@, i as int) {
            Some(vj) => if vj.0 <= u64::MAX {
                r == Some((vj.0 as u64, vj.1 as usize))
            } else {
                r is None
            },
            None => r is None,
        },
{
    decode_varint_fuel(data, i, 10)
}

fn decode_varint_fuel(data: &Vec<u8>, i: usize, fuel: u64) -> (r: Option<(u64, usize)>)
    ensures
        match parse_varint_at(data@, i as int, fuel as nat) {
            Some(vj) => if vj.0 <= u64::MAX {
                r == Some((vj.0 as u64, vj.1 as usize))
            } else {
                r is None
            },
            None => r is None,
        },
    decreases fuel,
{
    if fuel == 0 || i >= data.len() {
        return None;
    }
    let b = data[i];
    if b < 128 {
        Some((b as u64, i + 1))
    } else {
        match decode_varint_fuel(data, i + 1, fuel - 1) {
            None => None,
            Some((v, j)) => {
                if v <= (u64::MAX - 127) / 128 {
                    Some(((b - 128) as u64 + 128 * v, j))
                } else {
                    None
                }
            },
        }
    }
}

} // verus!
