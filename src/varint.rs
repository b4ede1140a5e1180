use vstd::prelude::*;

verus! {

/// The number that a little-endian base-128 digit sequence stands for: each
/// byte's low seven bits are one digit, least significant first.
pub open spec fn varint_value(s: Seq<u8>) -> nat
    decreases s.len(),
{
    if s.len() == 0 {
        0
    } else {
        (s[0] % 128) as nat + 128 * varint_value(s.drop_first())
    }
}

/// The minimal unsigned varint of `n`: seven bits per byte, the high bit set on
/// every byte but the last.
pub open spec fn varint_encoding(n: nat) -> Seq<u8>
    decreases n,
{
    if n < 128 {
        seq![n as u8]
    } else {
        seq![(n % 128 + 128) as u8] + varint_encoding(n / 128)
    }
}

/// `s` is exactly one minimal varint.
pub open spec fn is_varint(s: Seq<u8>) -> bool {
    &&& s.len() > 0
    &&& s.last() < 128
    &&& forall|i: int| 0 <= i < s.len() - 1 ==> s[i] >= 128
    &&& (s.len() == 1 || s.last() != 0)
}

/// A minimal varint stands in `s` from `pos` up to `next`.
pub open spec fn varint_at(s: Seq<u8>, pos: int, next: int) -> bool {
    0 <= pos < next <= s.len() && is_varint(s.subrange(pos, next))
}

/// The outcome of reading a varint.
pub enum VarintRead {
    /// The value and the index just past its last byte.
    Value(u64, usize),
    /// The value exceeds the bound given.
    TooLarge,
    /// The input ends before the varint's last byte.
    Incomplete,
    /// A varint with a needless trailing zero digit.
    Malformed,
}

pub proof fn lemma_encoding_is_varint(n: nat)
    ensures
        is_varint(varint_encoding(n)),
        varint_value(varint_encoding(n)) == n,
    decreases n,
{
    let e = varint_encoding(n);
    if n < 128 {
        assert(e.drop_first() =~= Seq::<u8>::empty());
        assert(varint_value(e.drop_first()) == 0);
        assert(e[0] == n as u8);
        assert(varint_value(e) == (e[0] % 128) as nat + 128 * varint_value(e.drop_first()));
    } else {
        lemma_encoding_is_varint(n / 128);
        let rest = varint_encoding(n / 128);
        assert(e.drop_first() =~= rest);
        assert(e[0] == (n % 128 + 128) as u8);
        assert(e.last() == rest.last());
        assert forall|i: int| 0 <= i < e.len() - 1 implies e[i] >= 128 by {
            if i > 0 {
                assert(e[i] == rest[i - 1]);
            }
        }
        if rest.len() == 1 {
            assert(rest.last() == (n / 128) as u8);
        }
        assert(e[0] % 128 == n % 128);
        assert(n == n % 128 + 128 * (n / 128)) by (nonlinear_arith);
        assert(varint_value(e) == (e[0] % 128) as nat + 128 * varint_value(e.drop_first()));
    }
}

pub proof fn lemma_varint_positive(s: Seq<u8>)
    requires
        is_varint(s),
        s.len() > 1,
    ensures
        varint_value(s) >= 1,
    decreases s.len(),
{
    let r = s.drop_first();
    if r.len() == 1 {
        assert(r[0] == s.last());
        assert(varint_value(r.drop_first()) == 0);
    } else {
        assert(is_varint(r)) by {
            assert forall|i: int| 0 <= i < r.len() - 1 implies r[i] >= 128 by {
                assert(r[i] == s[i + 1]);
            }
        }
        lemma_varint_positive(r);
    }
}

pub proof fn lemma_varint_canonical(s: Seq<u8>)
    requires
        is_varint(s),
    ensures
        varint_encoding(varint_value(s)) == s,
    decreases s.len(),
{
    let r = s.drop_first();
    let n = varint_value(s);
    if s.len() == 1 {
        assert(r =~= Seq::<u8>::empty());
        assert(varint_encoding(n) =~= s);
    } else {
        assert(is_varint(r)) by {
            assert forall|i: int| 0 <= i < r.len() - 1 implies r[i] >= 128 by {
                assert(r[i] == s[i + 1]);
            }
            assert(r.last() == s.last());
        }
        lemma_varint_canonical(r);
        lemma_varint_positive(s);
        if r.len() > 1 {
            lemma_varint_positive(r);
        } else {
            assert(r.drop_first() =~= Seq::<u8>::empty());
            assert(r[0] == s.last());
        }
        let m = varint_value(r);
        let d = (s[0] % 128) as nat;
        assert(n == d + 128 * m);
        assert(m >= 1);
        assert(n >= 128) by (nonlinear_arith)
            requires
                n == d + 128 * m,
                m >= 1,
        ;
        assert(n % 128 == d && n / 128 == m) by (nonlinear_arith)
            requires
                n == d + 128 * m,
                d < 128,
        ;
        assert(s[0] >= 128);
        assert((d + 128) as u8 == s[0]);
        assert(varint_encoding(n) =~= s);
    }
}

/// Two minimal varints read from the same place have the same end.
pub proof fn lemma_varint_at_unique(s: Seq<u8>, pos: int, a: int, b: int)
    requires
        varint_at(s, pos, a),
        varint_at(s, pos, b),
    ensures
        a == b,
{
    if a < b {
        assert(s.subrange(pos, a).last() == s[a - 1]);
        assert(s.subrange(pos, b)[a - 1 - pos] == s[a - 1]);
    } else if b < a {
        assert(s.subrange(pos, b).last() == s[b - 1]);
        assert(s.subrange(pos, a)[b - 1 - pos] == s[b - 1]);
    }
}

proof fn lemma_value_grows(s: Seq<u8>, i: int, j: int, e: int)
    requires
        0 <= i <= j <= e <= s.len(),
    ensures
        varint_value(s.subrange(i, e)) >= varint_value(s.subrange(j, e)),
    decreases j - i,
{
    if i < j {
        lemma_value_grows(s, i + 1, j, e);
        assert(s.subrange(i, e).drop_first() =~= s.subrange(i + 1, e));
    }
}

/// Appends the minimal varint of `n`.
pub fn write_varint(out: &mut Vec<u8>, n: u64)
    ensures
        final(out)@ == old(out)@ + varint_encoding(n as nat),
{
    let mut v: u64 = n;
    loop
        invariant
            out@ + varint_encoding(v as nat) == old(out)@ + varint_encoding(n as nat),
        decreases v,
    {
        if v < 128 {
            out.push(v as u8);
            assert(varint_encoding(v as nat) =~= seq![v as u8]);
            return;
        }
        let b: u8 = (v % 128 + 128) as u8;
        out.push(b);
        proof {
            let tail = varint_encoding((v / 128) as nat);
            assert(varint_encoding(v as nat) == seq![b] + tail);
            assert(out@ + tail =~= old(out)@ + varint_encoding(n as nat)) by {
                assert(out@ + tail =~= (out@.drop_last() + seq![b]) + tail);
            }
        }
        v = v / 128;
    }
}

/// Reads the minimal varint that starts at `pos`, refusing values above `limit`.
pub fn read_varint(buf: &[u8], pos: usize, limit: u64) -> (r: VarintRead)
    requires
        pos <= buf@.len(),
    ensures
        match r {
            VarintRead::Value(v, next) => {
                &&& varint_at(buf@, pos as int, next as int)
                &&& v as nat == varint_value(buf@.subrange(pos as int, next as int))
                &&& v <= limit
            },
            VarintRead::TooLarge => exists|next: int|
                varint_at(buf@, pos as int, next) && varint_value(buf@.subrange(pos as int, next))
                    > limit,
            VarintRead::Incomplete => forall|i: int| pos <= i < buf@.len() ==> buf@[i] >= 128,
            VarintRead::Malformed => {
                &&& exists|i: int| pos <= i < buf@.len() && buf@[i] < 128
                &&& forall|next: int| !varint_at(buf@, pos as int, next)
            },
        },
{
    let mut e: usize = pos;
    while e < buf.len() && buf[e] >= 128
        invariant
            pos <= e <= buf@.len(),
            forall|i: int| pos <= i < e ==> buf@[i] >= 128,
        decreases buf@.len() - e,
    {
        e = e + 1;
    }
    if e == buf.len() {
        return VarintRead::Incomplete;
    }
    let next: usize = e + 1;
    if e > pos && buf[e] == 0 {
        proof {
            assert forall|k: int| !varint_at(buf@, pos as int, k) by {
                if varint_at(buf@, pos as int, k) {
                    let s = buf@.subrange(pos as int, k);
                    if k - 1 < e {
                        assert(s.last() == buf@[k - 1]);
                    } else if k - 1 > e {
                        assert(s[e - pos] == buf@[e as int]);
                    } else {
                        assert(s.last() == buf@[e as int]);
                    }
                }
            }
        }
        return VarintRead::Malformed;
    }
    proof {
        let s = buf@.subrange(pos as int, next as int);
        assert(s.last() == buf@[e as int]);
        assert forall|i: int| 0 <= i < s.len() - 1 implies s[i] >= 128 by {
            assert(s[i] == buf@[pos + i]);
        }
        assert(varint_at(buf@, pos as int, next as int));
    }
    let mut i: usize = e;
    let mut acc: u64 = (buf[e] % 128) as u64;
    proof {
        let t = buf@.subrange(e as int, next as int);
        assert(t.drop_first() =~= Seq::<u8>::empty());
        assert(t[0] == buf@[e as int]);
        assert(varint_value(t.drop_first()) == 0);
        assert(varint_value(t) == (t[0] % 128) as nat + 128 * varint_value(t.drop_first()));
        assert(varint_value(t) == acc as nat);
        lemma_value_grows(buf@, pos as int, e as int, next as int);
    }
    if acc > limit {
        assert(varint_value(buf@.subrange(pos as int, next as int)) > limit);
        return VarintRead::TooLarge;
    }
    while i > pos
        invariant
            pos <= i <= e,
            next == e + 1,
            next <= buf@.len(),
            acc as nat == varint_value(buf@.subrange(i as int, next as int)),
            acc <= limit,
            varint_at(buf@, pos as int, next as int),
        decreases i,
    {
        let low: u64 = (buf[i - 1] % 128) as u64;
        proof {
            assert(buf@.subrange(i - 1, next as int).drop_first() =~= buf@.subrange(
                i as int,
                next as int,
            ));
            lemma_value_grows(buf@, pos as int, i - 1, next as int);
        }
        if low > limit || acc > (limit - low) / 128 {
            proof {
                let l = limit as int;
                let a = acc as int;
                let d = low as int;
                if d <= l {
                    assert(d + 128 * a > l) by (nonlinear_arith)
                        requires
                            a > (l - d) / 128,
                            d <= l,
                    ;
                }
                assert(varint_value(buf@.subrange(pos as int, next as int)) > limit);
            }
            return VarintRead::TooLarge;
        }
        proof {
            let l = limit as int;
            let a = acc as int;
            let d = low as int;
            assert(d + 128 * a <= l) by (nonlinear_arith)
                requires
                    a <= (l - d) / 128,
                    d <= l,
            ;
        }
        acc = low + 128 * acc;
        i = i - 1;
    }
    VarintRead::Value(acc, next)
}

} // verus!
