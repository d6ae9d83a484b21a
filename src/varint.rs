//! Unsigned base-128 variable-length integers, least significant group first.
use vstd::prelude::*;

verus! {

/// The bytes that encode `n`: seven data bits per byte, the high bit set on
/// every byte but the last.
pub open spec fn varint_bytes(n: nat) -> Seq<u8>
    decreases n,
{
    if n < 128 {
        seq![n as u8]
    } else {
        seq![(n % 128 + 128) as u8] + varint_bytes(n / 128)
    }
}

/// Reads a varint from the front of `s`: its value and the number of bytes it
/// takes, or `None` when `s` ends before a byte without the high bit.
pub open spec fn varint_parse(s: Seq<u8>) -> Option<(nat, nat)>
    decreases s.len(),
{
    if s.len() == 0 {
        None
    } else if s[0] < 128 {
        Some((s[0] as nat, 1))
    } else {
        match varint_parse(s.drop_first()) {
            None => None,
            Some((v, k)) => Some((((s[0] - 128) + 128 * v) as nat, k + 1)),
        }
    }
}

/// A varint written in front of any bytes reads back as the value written.
pub proof fn lemma_varint_round_trip(n: nat, rest: Seq<u8>)
    ensures
        varint_parse(varint_bytes(n) + rest) == Some((n, varint_bytes(n).len())),
    decreases n,
{
    let s = varint_bytes(n) + rest;
    if n >= 128 {
        lemma_varint_round_trip(n / 128, rest);
        assert(s.drop_first() =~= varint_bytes(n / 128) + rest);
    }
}

/// Encodes `n` as a varint.
pub fn write_varint(n: usize) -> (r: Vec<u8>)
    ensures
        r@ == varint_bytes(n as nat),
{
    let mut out: Vec<u8> = Vec::new();
    let mut cur: usize = n;
    while cur >= 128
        invariant
            out@ + varint_bytes(cur as nat) == varint_bytes(n as nat),
        decreases cur,
    {
        let group: u8 = (cur % 128 + 128) as u8;
        proof {
            assert(varint_bytes(cur as nat) == seq![group] + varint_bytes((cur / 128) as nat));
            assert(out@.push(group) + varint_bytes((cur / 128) as nat) =~= out@ + varint_bytes(
                cur as nat,
            ));
        }
        out.push(group);
        cur = cur / 128;
    }
    proof {
        assert(out@.push(cur as u8) =~= out@ + varint_bytes(cur as nat));
    }
    out.push(cur as u8);
    out
}

proof fn lemma_parse_front(s: Seq<u8>, j: int)
    requires
        0 <= j < s.len(),
    ensures
        s.subrange(j, s.len() as int).drop_first() =~= s.subrange(j + 1, s.len() as int),
        varint_parse(s.subrange(j, s.len() as int)) == if s[j] < 128 {
            Some((s[j] as nat, 1nat))
        } else {
            match varint_parse(s.subrange(j + 1, s.len() as int)) {
                None => None,
                Some((v, k)) => Some((((s[j] - 128) + 128 * v) as nat, k + 1)),
            }
        },
        match varint_parse(s.subrange(j, s.len() as int)) {
            None => true,
            Some((v, k)) => v >= s[j] % 128,
        },
{
    let t = s.subrange(j, s.len() as int);
    assert(t.drop_first() =~= s.subrange(j + 1, s.len() as int));
    assert(t[0] == s[j]);
}

/// Reads the varint that starts at `start` in `buf[start..end]` and accepts
/// it when its value fits in what follows it before `end`. On success the
/// result is the value and the number of bytes the varint takes.
pub fn read_varint(buf: &[u8], start: usize, end: usize) -> (r: Option<(usize, usize)>)
    requires
        start <= end <= buf@.len(),
    ensures
        ({
            let s = buf@.subrange(start as int, end as int);
            match r {
                Some((v, k)) => varint_parse(s) == Some((v as nat, k as nat)) && v + k <= s.len(),
                None => match varint_parse(s) {
                    None => true,
                    Some((v, k)) => v + k > s.len(),
                },
            }
        }),
{
    let ghost s = buf@.subrange(start as int, end as int);
    let limit: u128 = (end - start) as u128;
    let mut acc: u128 = 0;
    let mut mult: u128 = 1;
    let mut big: bool = limit == 0;
    let ghost mut pow: nat = 1;
    let mut i: usize = start;
    assert(s.subrange(0, s.len() as int) =~= s);
    while i < end
        invariant
            start <= i <= end <= buf@.len(),
            s == buf@.subrange(start as int, end as int),
            limit == s.len(),
            acc <= limit,
            pow >= 1,
            !big ==> mult == pow && mult <= limit,
            big ==> pow > limit,
            varint_parse(s) == match varint_parse(s.subrange(i - start, s.len() as int)) {
                None => None::<(nat, nat)>,
                Some((v, k)) => Some(((acc + pow * v) as nat, (k + (i - start)) as nat)),
            },
        decreases end - i,
    {
        let b: u8 = buf[i];
        let g: u128 = (b % 128) as u128;
        let ghost j: int = i - start;
        proof {
            assert(s[j] == b);
            lemma_parse_front(s, j);
        }
        let ghost acc0: nat = acc as nat;
        proof {
            match varint_parse(s.subrange(j, s.len() as int)) {
                None => {},
                Some((v, k)) => {
                    assert(pow * v >= pow * g) by (nonlinear_arith)
                        requires v >= g, pow >= 1;
                },
            }
        }
        if big && g != 0 {
            assert(pow * g >= pow) by (nonlinear_arith)
                requires g >= 1, pow >= 1;
            return None;
        }
        if !big {
            assert(g * mult <= 127 * limit) by (nonlinear_arith)
                requires g <= 127, mult <= limit;
            if acc + g * mult > limit {
                return None;
            }
            acc = acc + g * mult;
        }
        assert(acc == acc0 + pow * g) by (nonlinear_arith)
            requires big ==> g == 0, !big ==> mult == pow, !big ==> acc == acc0 + g * mult,
                big ==> acc == acc0;
        if b < 128 {
            let k: usize = i - start + 1;
            if acc + k as u128 > limit {
                return None;
            }
            return Some((acc as usize, k));
        }
        proof {
            match varint_parse(s.subrange(j + 1, s.len() as int)) {
                None => {},
                Some((v, k)) => {
                    assert(pow * ((b - 128) + 128 * v) == pow * (b - 128) + (pow * 128) * v)
                        by (nonlinear_arith);
                },
            }
        }
        if !big {
            if mult * 128 > limit {
                big = true;
            } else {
                mult = mult * 128;
            }
        }
        proof {
            pow = pow * 128;
        }
        i = i + 1;
    }
    proof {
        assert(s.subrange(i - start, s.len() as int).len() == 0);
    }
    None
}

} // verus!
