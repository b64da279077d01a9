//! Byte interleaving: byte `i` of the data goes to part `i % n`.
use vstd::arithmetic::div_mod::{
    lemma_fundamental_div_mod, lemma_fundamental_div_mod_converse_div,
    lemma_fundamental_div_mod_converse_mod,
};
use vstd::arithmetic::mul::lemma_mul_inequality;
use vstd::prelude::*;

verus! {

/// Number of bytes of a `len`-byte sequence that land in part `j` of `n`:
/// one more than `len / n` for the first `len % n` parts.
pub open spec fn part_len(len: nat, n: nat, j: nat) -> nat
    recommends
        n > 0,
{
    len / n + if j < len % n {
        1nat
    } else {
        0nat
    }
}

/// Part `j` of `n`: the bytes of `d` at offsets `j`, `j + n`, `j + 2n`, ...
pub open spec fn part_of(d: Seq<u8>, n: nat, j: nat) -> Seq<u8>
    recommends
        n > 0,
{
    Seq::new(part_len(d.len(), n, j), |t: int| d[t * n + j])
}

/// The `n` parts of `d`, in order.
pub open spec fn split_spec(d: Seq<u8>, n: nat) -> Seq<Seq<u8>>
    recommends
        n > 0,
{
    Seq::new(n, |j: int| part_of(d, n, j as nat))
}

/// Every offset that `part_of` reads lies inside the data.
proof fn lemma_part_offset(len: nat, n: nat, j: nat, t: nat)
    requires
        n > 0,
        j < n,
        t < part_len(len, n, j),
    ensures
        t * n + j < len,
{
    let q = len / n;
    let r = len % n;
    lemma_fundamental_div_mod(len as int, n as int);
    if j < r {
        assert(t * n <= q * n) by (nonlinear_arith)
            requires t <= q, n > 0;
    } else {
        assert(t * n <= q * n - n) by (nonlinear_arith)
            requires t + 1 <= q, n > 0;
    }
}

/// Splits `data` into `n_parts` parts, byte `i` going to part `i % n_parts`.
pub fn split(data: &[u8], n_parts: usize) -> (parts: Vec<Vec<u8>>)
    requires
        n_parts > 0,
    ensures
        parts@.len() == n_parts,
        views(parts@) == split_spec(data@, n_parts as nat),
{
    let len = data.len();
    let mut parts: Vec<Vec<u8>> = Vec::with_capacity(n_parts);
    let mut j: usize = 0;
    while j < n_parts
        invariant
            j <= n_parts,
            len == data@.len(),
            parts@.len() == j,
            forall|i: int| 0 <= i < j ==> #[trigger] parts@[i]@ == part_of(data@, n_parts as nat, i as nat),
        decreases n_parts - j,
    {
        let base: usize = len / n_parts;
        let count: usize = if j < len % n_parts {
            proof {
                lemma_fundamental_div_mod(len as int, n_parts as int);
                assert(base <= base * n_parts) by (nonlinear_arith)
                    requires n_parts > 0;
                assert(base * n_parts + len % n_parts == len);
                assert(base < len);
            }
            base + 1
        } else {
            base
        };
        let mut part: Vec<u8> = Vec::with_capacity(count);
        let mut t: usize = 0;
        while t < count
            invariant
                j < n_parts,
                len == data@.len(),
                count == part_len(len as nat, n_parts as nat, j as nat),
                t <= count,
                part@ == Seq::new(t as nat, |k: int| data@[k * n_parts + j]),
            decreases count - t,
        {
            proof {
                lemma_part_offset(len as nat, n_parts as nat, j as nat, t as nat);
            }
            part.push(data[t * n_parts + j]);
            t = t + 1;
            assert(part@ =~= Seq::new(t as nat, |k: int| data@[k * n_parts + j]));
        }
        assert(part@ =~= part_of(data@, n_parts as nat, j as nat));
        parts.push(part);
        j = j + 1;
    }
    assert(views(parts@) =~= split_spec(data@, n_parts as nat));
    parts
}

/// The byte sequences held by a sequence of vectors.
pub open spec fn views(parts: Seq<Vec<u8>>) -> Seq<Seq<u8>> {
    Seq::new(parts.len(), |j: int| parts[j]@)
}

/// Length of the shortest part; 0 when there are no parts.
pub open spec fn min_len(parts: Seq<Seq<u8>>) -> nat
    decreases parts.len(),
{
    if parts.len() == 0 {
        0
    } else if parts.len() == 1 {
        parts[0].len()
    } else {
        let m = min_len(parts.drop_last());
        if parts.last().len() < m {
            parts.last().len()
        } else {
            m
        }
    }
}

/// Full rounds: byte `i` of every part, in part order, for each `i < m`.
pub open spec fn rounds(parts: Seq<Seq<u8>>, m: nat) -> Seq<u8> {
    Seq::new(m * parts.len(), |k: int| parts[k % parts.len() as int][k / parts.len() as int])
}

/// What lies past byte `m` in each part, part after part.
pub open spec fn surplus(parts: Seq<Seq<u8>>, m: nat) -> Seq<u8> {
    Seq::new(parts.len(), |j: int| parts[j].skip(m as int)).flatten()
}

/// The merge of `parts`: full rounds up to the shortest part's length, then every
/// byte beyond that length, by part index.
pub open spec fn merge_spec(parts: Seq<Seq<u8>>) -> Seq<u8> {
    rounds(parts, min_len(parts)) + surplus(parts, min_len(parts))
}

/// The shortest length is no longer than any part, and is the length of one of them.
proof fn lemma_min_len(parts: Seq<Seq<u8>>)
    ensures
        forall|j: int| 0 <= j < parts.len() ==> min_len(parts) <= #[trigger] parts[j].len(),
        parts.len() > 0 ==> exists|j: int| 0 <= j < parts.len() && min_len(parts) == #[trigger] parts[j].len(),
    decreases parts.len(),
{
    if parts.len() > 1 {
        let init = parts.drop_last();
        lemma_min_len(init);
        assert forall|j: int| 0 <= j < parts.len() implies min_len(parts) <= #[trigger] parts[j].len() by {
            if j < init.len() {
                assert(init[j] == parts[j]);
            }
        }
        if parts.last().len() >= min_len(init) {
            let w = choose|j: int| 0 <= j < init.len() && min_len(init) == #[trigger] init[j].len();
            assert(parts[w] == init[w]);
        } else {
            assert(min_len(parts) == parts[parts.len() - 1].len());
        }
    } else if parts.len() == 1 {
        assert(min_len(parts) == parts[0].len());
    }
}

/// Whether the lengths of `parts` are those that a split gives: the last part is
/// the shortest, every part is at most one byte longer than it, and no part is
/// longer than one before it.
pub open spec fn fits_split_shape(parts: Seq<Seq<u8>>) -> bool {
    &&& parts.len() > 0
    &&& forall|j: int|
        0 <= j < parts.len() ==> parts.last().len() <= #[trigger] parts[j].len() <= parts.last().len()
            + 1
    &&& forall|i: int, j: int|
        0 <= i < j < parts.len() ==> #[trigger] parts[j].len() <= #[trigger] parts[i].len()
}

/// Tells whether `parts` has the shape of a split's output, so that merging it
/// gives back what was split.
pub fn parts_fit(parts: &[Vec<u8>]) -> (r: bool)
    ensures
        r == fits_split_shape(views(parts@)),
{
    let ghost v = views(parts@);
    let n = parts.len();
    if n == 0 {
        return false;
    }
    let m = parts[n - 1].len();
    assert(v.last() == parts@[n - 1]@);
    let mut j: usize = 0;
    while j < n
        invariant
            j <= n,
            n == v.len(),
            n > 0,
            v == views(parts@),
            m == v.last().len(),
            forall|k: int| 0 <= k < j ==> m <= #[trigger] v[k].len() <= m + 1,
            forall|i: int, k: int| 0 <= i < k < j ==> #[trigger] v[k].len() <= #[trigger] v[i].len(),
        decreases n - j,
    {
        assert(v[j as int] == parts@[j as int]@);
        let len_j = parts[j].len();
        if len_j < m || len_j - m > 1 {
            return false;
        }
        if j > 0 {
            assert(v[j - 1] == parts@[j - 1]@);
            if len_j > parts[j - 1].len() {
                assert(!(v[j as int].len() <= v[j - 1].len()));
                return false;
            }
        }
        j = j + 1;
    }
    true
}

/// Merges `parts` back into one sequence: round-robin over the length of the
/// shortest part, then the remaining bytes of each part in part order.
pub fn merge(parts: &[Vec<u8>]) -> (merged: Vec<u8>)
    ensures
        merged@ == merge_spec(views(parts@)),
{
    let ghost v = views(parts@);
    let n = parts.len();
    let mut out: Vec<u8> = Vec::new();
    if n == 0 {
        assert(rounds(v, 0) =~= Seq::<u8>::empty());
        assert(surplus(v, 0) =~= Seq::<u8>::empty());
        return out;
    }
    let mut m: usize = parts[0].len();
    let mut j: usize = 1;
    assert(v.take(1).drop_last().len() == 0);
    while j < n
        invariant
            1 <= j <= n,
            n == v.len(),
            v == views(parts@),
            m == min_len(v.take(j as int)),
        decreases n - j,
    {
        assert(v.take(j + 1).drop_last() =~= v.take(j as int));
        if parts[j].len() < m {
            m = parts[j].len();
        }
        j = j + 1;
    }
    assert(v.take(n as int) =~= v);
    proof {
        lemma_min_len(v);
    }
    let mut i: usize = 0;
    while i < m
        invariant
            i <= m,
            n == v.len(),
            n > 0,
            v == views(parts@),
            m == min_len(v),
            forall|jj: int| 0 <= jj < n ==> m <= #[trigger] v[jj].len(),
            out@ == Seq::new((i * n) as nat, |k: int| v[k % n as int][k / n as int]),
        decreases m - i,
    {
        let mut j: usize = 0;
        while j < n
            invariant
                i < m,
                j <= n,
                n == v.len(),
                v == views(parts@),
                forall|jj: int| 0 <= jj < n ==> m <= #[trigger] v[jj].len(),
                out@ == Seq::new((i * n + j) as nat, |k: int| v[k % n as int][k / n as int]),
            decreases n - j,
        {
            assert(v[j as int] == parts@[j as int]@);
            out.push(parts[j][i]);
            proof {
                lemma_fundamental_div_mod_converse_div((i * n + j) as int, n as int, i as int, j as int);
                lemma_fundamental_div_mod_converse_mod((i * n + j) as int, n as int, i as int, j as int);
            }
            j = j + 1;
            assert(out@ =~= Seq::new((i * n + j) as nat, |k: int| v[k % n as int][k / n as int]));
        }
        assert(i * n + n == (i + 1) * n) by (nonlinear_arith);
        i = i + 1;
    }
    assert(out@ =~= rounds(v, m as nat));
    let ghost head = out@;
    let ghost tails = Seq::new(n as nat, |jj: int| v[jj].skip(m as int));
    let mut j: usize = 0;
    while j < n
        invariant
            j <= n,
            n == v.len(),
            v == views(parts@),
            forall|jj: int| 0 <= jj < n ==> m <= #[trigger] v[jj].len(),
            tails == Seq::new(n as nat, |jj: int| v[jj].skip(m as int)),
            out@ == head + tails.take(j as int).flatten(),
        decreases n - j,
    {
        assert(v[j as int] == parts@[j as int]@);
        let len_j = parts[j].len();
        let mut t: usize = m;
        while t < len_j
            invariant
                j < n,
                n == v.len(),
                forall|jj: int| 0 <= jj < n ==> m <= #[trigger] v[jj].len(),
                tails == Seq::new(n as nat, |jj: int| v[jj].skip(m as int)),
                m <= t <= len_j,
                len_j == v[j as int].len(),
                v == views(parts@),
                out@ == head + tails.take(j as int).flatten() + v[j as int].subrange(m as int, t as int),
            decreases len_j - t,
        {
            assert(v[j as int] == parts@[j as int]@);
            out.push(parts[j][t]);
            t = t + 1;
            assert(out@ =~= head + tails.take(j as int).flatten() + v[j as int].subrange(m as int, t as int));
        }
        proof {
            assert(tails.take(j + 1) =~= tails.take(j as int).push(tails[j as int]));
            tails.take(j as int).lemma_flatten_push(tails[j as int]);
            assert(v[j as int].subrange(m as int, t as int) =~= tails[j as int]);
        }
        j = j + 1;
        assert(out@ =~= head + tails.take(j as int).flatten());
    }
    assert(tails.take(n as int) =~= tails);
    out
}

} // verus!

verus! {

/// Splitting into `n` parts always gives exactly `n` parts; the first `len % n`
/// of them hold `ceil(len / n)` bytes and the others `floor(len / n)`.
pub proof fn lemma_split_lengths(d: Seq<u8>, n: nat)
    requires
        n > 0,
    ensures
        split_spec(d, n).len() == n,
        forall|j: int|
            0 <= j < n ==> #[trigger] split_spec(d, n)[j].len() == if j < d.len() % n {
                ((d.len() + n - 1) / n as int) as nat
            } else {
                d.len() / n
            },
{
    let len = d.len();
    lemma_fundamental_div_mod(len as int, n as int);
    let q = len / n;
    let r = len % n;
    if r > 0 {
        assert(len + n - 1 == (q + 1) * n + (r - 1)) by (nonlinear_arith)
            requires len == n * q + r;
        lemma_fundamental_div_mod_converse_div((len + n - 1) as int, n as int, (q + 1) as int, (r - 1) as int);
    }
}

/// Byte `i` of the data lands in part `i % n`, at position `i / n`.
pub proof fn lemma_split_places(d: Seq<u8>, n: nat, i: int)
    requires
        n > 0,
        0 <= i < d.len(),
    ensures
        i / (n as int) < split_spec(d, n)[i % (n as int)].len(),
        split_spec(d, n)[i % (n as int)][i / (n as int)] == d[i],
{
    let len = d.len() as int;
    let q = len / n as int;
    let t = i / n as int;
    let j = i % n as int;
    lemma_fundamental_div_mod(len, n as int);
    lemma_fundamental_div_mod(i, n as int);
    assert(i == t * n + j);
    if t > q {
        lemma_mul_inequality(q + 1, t, n as int);
        assert((q + 1) * n == q * n + n) by (nonlinear_arith);
    }
    assert(t <= q);
    if t == q {
        assert(j < len % n as int);
    }
}

/// The parts of a split always have the shape that `parts_fit` accepts.
pub proof fn lemma_split_fits(d: Seq<u8>, n: nat)
    requires
        n > 0,
    ensures
        fits_split_shape(split_spec(d, n)),
{
    let parts = split_spec(d, n);
    lemma_fundamental_div_mod(d.len() as int, n as int);
    assert(parts.last().len() == d.len() / n);
}

/// Splitting the empty sequence gives `n` empty parts, and merging `n` empty
/// parts gives the empty sequence.
pub proof fn lemma_empty(n: nat)
    requires
        n > 0,
    ensures
        split_spec(Seq::empty(), n) == Seq::new(n, |j: int| Seq::<u8>::empty()),
        merge_spec(Seq::new(n, |j: int| Seq::<u8>::empty())) == Seq::<u8>::empty(),
{
    assert forall|j: int| 0 <= j < n implies #[trigger] split_spec(Seq::<u8>::empty(), n)[j] =~= Seq::<u8>::empty() by {
        lemma_fundamental_div_mod(0, n as int);
        assert(part_len(0, n, j as nat) == 0);
    }
    assert(split_spec(Seq::empty(), n) =~= Seq::new(n, |j: int| Seq::<u8>::empty()));
    let parts = Seq::new(n, |j: int| Seq::<u8>::empty());
    lemma_min_len(parts);
    assert(min_len(parts) == 0);
    assert(rounds(parts, 0) =~= Seq::<u8>::empty());
    let tails = Seq::new(n, |j: int| parts[j].skip(0));
    lemma_flatten_empty_parts(tails);
}

/// A sequence of empty sequences flattens to the empty sequence.
proof fn lemma_flatten_empty_parts(s: Seq<Seq<u8>>)
    requires
        forall|j: int| 0 <= j < s.len() ==> #[trigger] s[j].len() == 0,
    ensures
        s.flatten() == Seq::<u8>::empty(),
    decreases s.len(),
{
    if s.len() > 0 {
        lemma_flatten_empty_parts(s.drop_first());
        assert(s[0] =~= Seq::<u8>::empty());
        assert(s.flatten() =~= Seq::<u8>::empty());
    }
}

/// Bytes past the first `len / n` of each part of `split_spec(d, n)`, part after
/// part, for the first `j` parts: the bytes of `d` from offset `(len / n) * n` on,
/// one per part while parts still hold one.
proof fn lemma_surplus_prefix(d: Seq<u8>, n: nat, j: nat)
    requires
        n > 0,
        j <= n,
    ensures
        ({
            let q = (d.len() / n) as int;
            let r = (d.len() % n) as int;
            Seq::new(n, |jj: int| split_spec(d, n)[jj].skip(q)).take(j as int).flatten()
                == d.subrange(q * n, q * n + if j < r { j as int } else { r })
        }),
    decreases j,
{
    let q = (d.len() / n) as int;
    let r = (d.len() % n) as int;
    let tails = Seq::new(n, |jj: int| split_spec(d, n)[jj].skip(q));
    lemma_fundamental_div_mod(d.len() as int, n as int);
    assert(q * n == n * q);
    if j == 0 {
        assert(tails.take(0) =~= Seq::<Seq<u8>>::empty());
        assert(d.subrange(q * n, q * n) =~= Seq::<u8>::empty());
    } else {
        let k = j - 1;
        lemma_surplus_prefix(d, n, k as nat);
        assert(tails.take(j as int) =~= tails.take(k).push(tails[k]));
        tails.take(k).lemma_flatten_push(tails[k]);
        let part = split_spec(d, n)[k];
        if k < r {
            assert(part.len() == q + 1);
            assert(part[q] == d[q * n + k]);
            assert(tails[k] =~= seq![d[q * n + k]]);
            assert(d.subrange(q * n, q * n + k + 1) =~= d.subrange(q * n, q * n + k) + seq![d[q * n + k]]);
        } else {
            assert(tails[k] =~= Seq::<u8>::empty());
        }
    }
}

/// Merging the parts of a split gives back the data, for every part count.
pub proof fn lemma_round_trip(d: Seq<u8>, n: nat)
    requires
        n > 0,
    ensures
        merge_spec(split_spec(d, n)) == d,
{
    let parts = split_spec(d, n);
    let len = d.len() as int;
    let q = len / n as int;
    lemma_fundamental_div_mod(len, n as int);
    assert(q * n == n * q);
    lemma_min_len(parts);
    assert(parts[n - 1].len() == q);
    let w = choose|j: int| 0 <= j < parts.len() && min_len(parts) == #[trigger] parts[j].len();
    assert(parts[w].len() >= q);
    assert(min_len(parts) == q);
    assert forall|k: int| 0 <= k < q * n implies #[trigger] rounds(parts, q as nat)[k] == d[k] by {
        lemma_fundamental_div_mod(k, n as int);
        let t = k / n as int;
        let jj = k % n as int;
        assert(k == t * n + jj);
        if t >= q {
            lemma_mul_inequality(q, t, n as int);
        }
        assert(parts[jj][t] == d[t * n + jj]);
    }
    assert(rounds(parts, q as nat) =~= d.subrange(0, q * n));
    lemma_surplus_prefix(d, n, n);
    assert(Seq::new(n, |jj: int| parts[jj].skip(q)).take(n as int)
        =~= Seq::new(n, |jj: int| parts[jj].skip(q)));
    assert(d.subrange(0, q * n) + d.subrange(q * n, len) =~= d);
}

} // verus!
