//! Fixed-width integer encodings (big- and little-endian) and the
//! lexicographic byte order that range scans follow.
use vstd::prelude::*;

verus! {

/// `256^n`.
pub open spec fn pow256(n: nat) -> nat
    decreases n,
{
    if n == 0 {
        1
    } else {
        256 * pow256((n - 1) as nat)
    }
}

/// The `n` low-order bytes of `v`, most significant first.
pub open spec fn be_bytes(v: nat, n: nat) -> Seq<u8>
    decreases n,
{
    if n == 0 {
        Seq::empty()
    } else {
        be_bytes(v / 256, (n - 1) as nat).push((v % 256) as u8)
    }
}

/// The number that big-endian bytes `s` denote.
pub open spec fn be_value(s: Seq<u8>) -> nat
    decreases s.len(),
{
    if s.len() == 0 {
        0
    } else {
        be_value(s.drop_last()) * 256 + s.last() as nat
    }
}

/// The `n` low-order bytes of `v`, least significant first.
pub open spec fn le_bytes(v: nat, n: nat) -> Seq<u8>
    decreases n,
{
    if n == 0 {
        Seq::empty()
    } else {
        seq![(v % 256) as u8] + le_bytes(v / 256, (n - 1) as nat)
    }
}

/// The number that little-endian bytes `s` denote.
pub open spec fn le_value(s: Seq<u8>) -> nat
    decreases s.len(),
{
    if s.len() == 0 {
        0
    } else {
        s[0] as nat + 256 * le_value(s.drop_first())
    }
}

/// `a` sorts strictly before `b` in byte-wise lexicographic order.
pub open spec fn lex_lt(a: Seq<u8>, b: Seq<u8>) -> bool {
    ||| exists|i: int|
        0 <= i < a.len() && i < b.len() && a.subrange(0, i) == b.subrange(0, i) && a[i] < b[i]
    ||| (a.len() < b.len() && b.subrange(0, a.len() as int) == a)
}

pub proof fn lemma_be_len(v: nat, n: nat)
    ensures
        be_bytes(v, n).len() == n,
    decreases n,
{
    if n > 0 {
        lemma_be_len(v / 256, (n - 1) as nat);
    }
}

/// Decoding big-endian bytes gives back any value that fits in them.
pub proof fn lemma_be_round_trip(v: nat, n: nat)
    requires
        v < pow256(n),
    ensures
        be_value(be_bytes(v, n)) == v,
    decreases n,
{
    if n > 0 {
        let p = pow256((n - 1) as nat);
        assert(v / 256 < p) by (nonlinear_arith)
            requires
                v < 256 * p,
        ;
        lemma_be_round_trip(v / 256, (n - 1) as nat);
        let s = be_bytes(v, n);
        assert(s.drop_last() =~= be_bytes(v / 256, (n - 1) as nat));
    }
}

/// The value of `n` big-endian bytes is below `256^n`.
pub proof fn lemma_be_value_bound(s: Seq<u8>)
    ensures
        be_value(s) < pow256(s.len()),
    decreases s.len(),
{
    if s.len() > 0 {
        lemma_be_value_bound(s.drop_last());
        let a = be_value(s.drop_last());
        let p = pow256((s.len() - 1) as nat);
        let l = s.last() as nat;
        assert(a * 256 + l < 256 * p) by (nonlinear_arith)
            requires
                a < p,
                l < 256,
        ;
    }
}

/// The value of `n` little-endian bytes is below `256^n`.
pub proof fn lemma_le_value_bound(s: Seq<u8>)
    ensures
        le_value(s) < pow256(s.len()),
    decreases s.len(),
{
    if s.len() > 0 {
        lemma_le_value_bound(s.drop_first());
        let a = le_value(s.drop_first());
        let p = pow256((s.len() - 1) as nat);
        let l = s[0] as nat;
        assert(l + 256 * a < 256 * p) by (nonlinear_arith)
            requires
                a < p,
                l < 256,
        ;
    }
}

/// Encoding the value of big-endian bytes gives back the bytes.
pub proof fn lemma_be_bytes_of_value(s: Seq<u8>)
    ensures
        be_bytes(be_value(s), s.len()) == s,
    decreases s.len(),
{
    if s.len() > 0 {
        let d = s.drop_last();
        let v = be_value(s);
        let l = s.last() as nat;
        assert(v / 256 == be_value(d) && v % 256 == l) by (nonlinear_arith)
            requires
                v == be_value(d) * 256 + l,
                l < 256,
        ;
        lemma_be_bytes_of_value(d);
        assert(be_bytes(v, s.len()) =~= s);
    }
}

/// Encoding the value of little-endian bytes gives back the bytes.
pub proof fn lemma_le_bytes_of_value(s: Seq<u8>)
    ensures
        le_bytes(le_value(s), s.len()) == s,
    decreases s.len(),
{
    if s.len() > 0 {
        let d = s.drop_first();
        let v = le_value(s);
        let l = s[0] as nat;
        assert(v / 256 == le_value(d) && v % 256 == l) by (nonlinear_arith)
            requires
                v == l + 256 * le_value(d),
                l < 256,
        ;
        lemma_le_bytes_of_value(d);
        assert(le_bytes(v, s.len()) =~= s);
    }
}

/// Big-endian bytes of equal length sort as the numbers they denote.
pub proof fn lemma_be_order(a: Seq<u8>, b: Seq<u8>)
    requires
        a.len() == b.len(),
        be_value(a) < be_value(b),
    ensures
        exists|i: int|
            0 <= i < a.len() && a.subrange(0, i) == b.subrange(0, i) && a[i] < b[i],
    decreases a.len(),
{
    let da = a.drop_last();
    let db = b.drop_last();
    let va = be_value(da);
    let vb = be_value(db);
    let la = a.last() as nat;
    let lb = b.last() as nat;
    if va < vb {
        lemma_be_order(da, db);
        let i = choose|i: int|
            0 <= i < da.len() && da.subrange(0, i) == db.subrange(0, i) && da[i] < db[i];
        assert(a.subrange(0, i) =~= da.subrange(0, i));
        assert(b.subrange(0, i) =~= db.subrange(0, i));
    } else if va == vb {
        lemma_be_bytes_of_value(da);
        lemma_be_bytes_of_value(db);
        assert(da == db);
        let i = a.len() - 1;
        assert(a.subrange(0, i) =~= da);
        assert(b.subrange(0, i) =~= db);
    } else {
        assert(false) by (nonlinear_arith)
            requires
                va > vb,
                la < 256,
                lb < 256,
                va * 256 + la < vb * 256 + lb,
        ;
    }
}

/// A strict lexicographic difference inside equal-length middles carries over
/// to the concatenations `p + a + x` and `p + b + y`.
pub proof fn lemma_lex_lt_concat(p: Seq<u8>, a: Seq<u8>, b: Seq<u8>, x: Seq<u8>, y: Seq<u8>)
    requires
        a.len() == b.len(),
        exists|i: int|
            0 <= i < a.len() && a.subrange(0, i) == b.subrange(0, i) && a[i] < b[i],
    ensures
        lex_lt(p + a + x, p + b + y),
{
    let i = choose|i: int|
        0 <= i < a.len() && a.subrange(0, i) == b.subrange(0, i) && a[i] < b[i];
    let l = p + a + x;
    let r = p + b + y;
    let k = p.len() + i;
    assert(l.subrange(0, k) =~= p + a.subrange(0, i));
    assert(r.subrange(0, k) =~= p + b.subrange(0, i));
    assert(l[k] == a[i]);
    assert(r[k] == b[i]);
}

/// Appends the `n` low-order bytes of `v`, most significant first.
pub fn push_be(out: &mut Vec<u8>, v: u64, n: usize)
    requires
        n <= 8,
    ensures
        final(out)@ == old(out)@ + be_bytes(v as nat, n as nat),
    decreases n,
{
    if n > 0 {
        push_be(out, v / 256, n - 1);
        out.push((v % 256) as u8);
        proof {
            assert((v / 256) as nat == v as nat / 256);
        }
    }
    assert(final(out)@ =~= old(out)@ + be_bytes(v as nat, n as nat));
}

/// Appends the `n` low-order bytes of `v`, least significant first.
pub fn push_le(out: &mut Vec<u8>, v: u64, n: usize)
    requires
        n <= 8,
    ensures
        final(out)@ == old(out)@ + le_bytes(v as nat, n as nat),
    decreases n,
{
    if n > 0 {
        out.push((v % 256) as u8);
        push_le(out, v / 256, n - 1);
    }
    assert(final(out)@ =~= old(out)@ + le_bytes(v as nat, n as nat));
}

/// Appends all of `bytes`.
pub fn push_all(out: &mut Vec<u8>, bytes: &[u8])
    ensures
        final(out)@ == old(out)@ + bytes@,
{
    let mut i: usize = 0;
    while i < bytes.len()
        invariant
            i <= bytes@.len(),
            out@ == old(out)@ + bytes@.subrange(0, i as int),
        decreases bytes@.len() - i,
    {
        out.push(bytes[i]);
        i = i + 1;
        assert(out@ =~= old(out)@ + bytes@.subrange(0, i as int));
    }
    assert(bytes@.subrange(0, bytes@.len() as int) =~= bytes@);
}

/// Reads `n` big-endian bytes of `s` starting at `start`.
pub fn read_be(s: &[u8], start: usize, n: usize) -> (r: u64)
    requires
        n <= 8,
        start + n <= s@.len(),
    ensures
        r as nat == be_value(s@.subrange(start as int, start + n)),
{
    let len = s.len();
    assert(start + n <= len);
    let end: usize = start + n;
    let mut acc: u64 = 0;
    let mut i: usize = start;
    while i < end
        invariant
            start <= i <= start + n,
            end == start + n,
            start + n <= s@.len(),
            n <= 8,
            acc as nat == be_value(s@.subrange(start as int, i as int)),
        decreases start + n - i,
    {
        let ghost prev = s@.subrange(start as int, i as int);
        let ghost next = s@.subrange(start as int, i + 1);
        proof {
            assert(next.drop_last() =~= prev);
            lemma_be_value_bound(next);
            lemma_pow_le_2_64((i + 1 - start) as nat);
        }
        acc = acc * 256 + s[i] as u64;
        i = i + 1;
    }
    acc
}

/// Reads `n` little-endian bytes of `s` starting at `start`.
pub fn read_le(s: &[u8], start: usize, n: usize) -> (r: u64)
    requires
        n <= 8,
        start + n <= s@.len(),
    ensures
        r as nat == le_value(s@.subrange(start as int, start + n)),
{
    let len = s.len();
    assert(start + n <= len);
    let mut acc: u64 = 0;
    let mut i: usize = start + n;
    while i > start
        invariant
            start <= i <= start + n,
            start + n <= s@.len(),
            n <= 8,
            acc as nat == le_value(s@.subrange(i as int, start + n)),
        decreases i - start,
    {
        let ghost prev = s@.subrange(i as int, start + n);
        let ghost next = s@.subrange(i - 1, start + n);
        proof {
            assert(next.drop_first() =~= prev);
            lemma_le_value_bound(next);
            lemma_pow_le_2_64((start + n - (i - 1)) as nat);
        }
        acc = s[i - 1] as u64 + 256 * acc;
        i = i - 1;
    }
    acc
}

/// `256^n` fits in 64 bits for `n <= 8`.
pub proof fn lemma_pow_le_2_64(n: nat)
    requires
        n <= 8,
    ensures
        pow256(n) <= 0x1_0000_0000_0000_0000,
{
    reveal_with_fuel(pow256, 9);
}

} // verus!

verus! {

/// No byte string sorts strictly before itself.
pub proof fn lemma_lex_lt_irreflexive(a: Seq<u8>)
    ensures
        !lex_lt(a, a),
{
}

/// Lexicographic order is transitive.
pub proof fn lemma_lex_lt_transitive(a: Seq<u8>, b: Seq<u8>, c: Seq<u8>)
    requires
        lex_lt(a, b),
        lex_lt(b, c),
    ensures
        lex_lt(a, c),
{
    let ab_diff = exists|i: int|
        0 <= i < a.len() && i < b.len() && a.subrange(0, i) == b.subrange(0, i) && a[i] < b[i];
    let bc_diff = exists|j: int|
        0 <= j < b.len() && j < c.len() && b.subrange(0, j) == c.subrange(0, j) && b[j] < c[j];
    if ab_diff {
        let i = choose|i: int|
            0 <= i < a.len() && i < b.len() && a.subrange(0, i) == b.subrange(0, i) && a[i] < b[i];
        if bc_diff {
            let j = choose|j: int|
                0 <= j < b.len() && j < c.len() && b.subrange(0, j) == c.subrange(0, j) && b[j] < c[j];
            if i < j {
                assert(b.subrange(0, i) =~= c.subrange(0, i)) by {
                    assert forall|k: int| 0 <= k < i implies b[k] == c[k] by {
                        assert(b.subrange(0, j)[k] == c.subrange(0, j)[k]);
                    }
                }
                assert(b[i] == c[i]) by {
                    assert(b.subrange(0, j)[i] == c.subrange(0, j)[i]);
                }
            } else if j < i {
                assert(a.subrange(0, j) =~= c.subrange(0, j)) by {
                    assert forall|k: int| 0 <= k < j implies a[k] == c[k] by {
                        assert(a.subrange(0, i)[k] == b.subrange(0, i)[k]);
                        assert(b.subrange(0, j)[k] == c.subrange(0, j)[k]);
                    }
                }
                assert(a[j] == b[j]) by {
                    assert(a.subrange(0, i)[j] == b.subrange(0, i)[j]);
                }
            } else {
                assert(a.subrange(0, i) =~= c.subrange(0, i));
            }
        } else {
            // b is a proper prefix of c
            assert(b.len() < c.len() && c.subrange(0, b.len() as int) == b);
            assert(b[i] == c[i]) by {
                assert(c.subrange(0, b.len() as int)[i] == c[i]);
            }
            assert(a.subrange(0, i) =~= c.subrange(0, i)) by {
                assert forall|k: int| 0 <= k < i implies a[k] == c[k] by {
                    assert(a.subrange(0, i)[k] == b.subrange(0, i)[k]);
                    assert(c.subrange(0, b.len() as int)[k] == c[k]);
                }
            }
        }
    } else {
        // a is a proper prefix of b
        assert(a.len() < b.len() && b.subrange(0, a.len() as int) == a);
        if bc_diff {
            let j = choose|j: int|
                0 <= j < b.len() && j < c.len() && b.subrange(0, j) == c.subrange(0, j) && b[j] < c[j];
            if j < a.len() {
                assert(a.subrange(0, j) =~= c.subrange(0, j)) by {
                    assert forall|k: int| 0 <= k < j implies a[k] == c[k] by {
                        assert(b.subrange(0, a.len() as int)[k] == b[k]);
                        assert(b.subrange(0, j)[k] == c.subrange(0, j)[k]);
                    }
                }
                assert(a[j] == b[j]) by {
                    assert(b.subrange(0, a.len() as int)[j] == b[j]);
                }
            } else {
                assert(c.subrange(0, a.len() as int) =~= a) by {
                    assert forall|k: int| 0 <= k < a.len() implies c[k] == a[k] by {
                        assert(b.subrange(0, a.len() as int)[k] == b[k]);
                        assert(b.subrange(0, j)[k] == c.subrange(0, j)[k]);
                    }
                }
            }
        } else {
            assert(b.len() < c.len() && c.subrange(0, b.len() as int) == b);
            assert(c.subrange(0, a.len() as int) =~= a) by {
                assert forall|k: int| 0 <= k < a.len() implies c[k] == a[k] by {
                    assert(b.subrange(0, a.len() as int)[k] == b[k]);
                    assert(c.subrange(0, b.len() as int)[k] == c[k]);
                }
            }
        }
    }
}

} // verus!
