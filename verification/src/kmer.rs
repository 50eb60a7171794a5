//! The k-tuple distance engine: k-mer indexing, cross-sequence matching,
//! greedy sparse chaining, and gap-aware scoring.

use vstd::prelude::*;

use crate::ratio::DistanceRatio;
use crate::ratio::DistanceError;

verus! {

/// The substring of `s` of length `k` that starts at offset `o`.
pub open spec fn kmer_at(s: Seq<u8>, k: int, o: int) -> Seq<u8> {
    s.subrange(o, o + k)
}

/// A sequence of offsets is strictly ascending.
pub open spec fn strictly_ascending(offs: Seq<usize>) -> bool {
    forall|m1: int, m2: int|
        0 <= m1 < m2 < offs.len() ==> #[trigger] offs[m1] < #[trigger] offs[m2]
}

/// Every offset in `offs` is strictly below `bound`.
pub open spec fn offs_below(offs: Seq<usize>, bound: int) -> bool {
    forall|m: int| 0 <= m < offs.len() ==> #[trigger] offs[m] < bound
}

/// Whether the offset list `offs` holds the value `o`.
pub open spec fn offs_has(offs: Seq<usize>, o: int) -> bool {
    exists|m: int| 0 <= m < offs.len() && offs[m] as int == o
}

/// A k-mer index for one sequence: each distinct k-mer maps to the ascending
/// list of offsets at which it starts.
pub struct KmerIndex {
    pub entries: Vec<(Vec<u8>, Vec<usize>)>,
}

/// The entry list holds offset `o` under the k-mer `key`.
pub open spec fn entries_contain(es: Seq<(Vec<u8>, Vec<usize>)>, key: Seq<u8>, o: int) -> bool {
    exists|n: int|
        0 <= n < es.len() && (#[trigger] es[n]).0@ == key && offs_has(es[n].1@, o)
}

/// Structural well-formedness of an entry list: keys are distinct, every
/// offset list is non-empty and strictly ascending, and no offset appears
/// under two keys.
pub open spec fn entries_wf(es: Seq<(Vec<u8>, Vec<usize>)>) -> bool {
    &&& forall|n1: int, n2: int|
        0 <= n1 < n2 < es.len() ==> (#[trigger] es[n1]).0@ != (#[trigger] es[n2]).0@
    &&& forall|n: int| 0 <= n < es.len() ==> (#[trigger] es[n]).1@.len() > 0
    &&& forall|n: int| 0 <= n < es.len() ==> strictly_ascending((#[trigger] es[n]).1@)
    &&& forall|n1: int, n2: int, o: int|
        0 <= n1 < es.len() && 0 <= n2 < es.len() && n1 != n2 && #[trigger] offs_has(es[n1].1@, o)
            ==> !(#[trigger] offs_has(es[n2].1@, o))
}

impl KmerIndex {
    /// The index holds offset `o` under the k-mer `key`.
    pub open spec fn contains_offset(self, key: Seq<u8>, o: int) -> bool {
        entries_contain(self.entries@, key, o)
    }

    /// Structural well-formedness: keys are distinct, every offset list is
    /// non-empty and strictly ascending, and no offset appears under two keys.
    pub open spec fn wf(self) -> bool {
        entries_wf(self.entries@)
    }

    /// The index is exactly the k-mer index of sequence `s` for size `k`:
    /// it holds offset `o` under `key` precisely when `o` is a valid start
    /// offset and the length-`k` substring of `s` at `o` equals `key`.
    /// A size of zero, or one larger than the sequence, yields an index that
    /// holds nothing.
    pub open spec fn indexes(self, s: Seq<u8>, k: int) -> bool {
        forall|key: Seq<u8>, o: int|
            #[trigger] self.contains_offset(key, o) <==> (1 <= k <= s.len() && 0 <= o <= s.len()
                - k && kmer_at(s, k, o) == key)
    }
}

/// Byte-for-byte equality of two byte vectors.
fn bytes_eq(a: &Vec<u8>, b: &Vec<u8>) -> (r: bool)
    ensures
        r <==> a@ == b@,
{
    if a.len() != b.len() {
        assert(a@ != b@);
        return false;
    }
    let mut t: usize = 0;
    while t < a.len()
        invariant
            0 <= t <= a@.len(),
            a@.len() == b@.len(),
            forall|m: int| 0 <= m < t ==> a@[m] == b@[m],
        decreases a@.len() - t,
    {
        if a[t] != b[t] {
            assert(a@ != b@);
            return false;
        }
        t = t + 1;
    }
    proof {
        assert(a@ =~= b@);
    }
    true
}

/// Copies the length-`kmer_size` substring of `genome` starting at `index`.
fn extract_kmer(genome: &Vec<u8>, index: usize, kmer_size: usize) -> (kmer: Vec<u8>)
    requires
        index + kmer_size <= genome@.len(),
    ensures
        kmer@ == kmer_at(genome@, kmer_size as int, index as int),
{
    let mut kmer: Vec<u8> = Vec::new();
    let glen = genome.len();
    let mut t: usize = 0;
    while t < kmer_size
        invariant
            0 <= t <= kmer_size,
            index + kmer_size <= genome@.len(),
            glen == genome@.len(),
            kmer@ == genome@.subrange(index as int, index + t),
        decreases kmer_size - t,
    {
        kmer.push(genome[index + t]);
        proof {
            assert(kmer@ =~= genome@.subrange(index as int, index + t + 1));
        }
        t = t + 1;
    }
    kmer
}

/// Finds the position of the entry whose key equals `kmer`, if any.
fn find_key(entries: &Vec<(Vec<u8>, Vec<usize>)>, kmer: &Vec<u8>) -> (r: Option<usize>)
    ensures
        match r {
            Some(n) => n < entries@.len() && entries@[n as int].0@ == kmer@,
            None => forall|n: int| 0 <= n < entries@.len() ==> (#[trigger] entries@[n]).0@ != kmer@,
        },
{
    let mut e: usize = 0;
    while e < entries.len()
        invariant
            0 <= e <= entries@.len(),
            forall|n: int| 0 <= n < e ==> (#[trigger] entries@[n]).0@ != kmer@,
        decreases entries@.len() - e,
    {
        if bytes_eq(&entries[e].0, kmer) {
            return Some(e);
        }
        e = e + 1;
    }
    None
}

/// Builds the k-mer index of `genome` for substrings of length `kmer_size`:
/// every valid start offset is recorded, in ascending order, under the
/// substring that starts there. A size of zero or one exceeding the sequence
/// length yields an empty index rather than an error.
pub fn parse_kmers(genome: &Vec<u8>, kmer_size: usize) -> (idx: KmerIndex)
    ensures
        idx.wf(),
        idx.indexes(genome@, kmer_size as int),
{
    let mut entries: Vec<(Vec<u8>, Vec<usize>)> = Vec::new();
    if kmer_size == 0 || kmer_size > genome.len() {
        return KmerIndex { entries };
    }
    let n_offsets = genome.len() - kmer_size + 1;
    let mut index: usize = 0;
    while index < n_offsets
        invariant
            1 <= kmer_size <= genome@.len(),
            genome@.len() <= usize::MAX,
            n_offsets == genome@.len() - kmer_size + 1,
            0 <= index <= n_offsets,
            entries_wf(entries@),
            forall|n: int|
                0 <= n < entries@.len() ==> offs_below((#[trigger] entries@[n]).1@, index as int),
            forall|key: Seq<u8>, o: int|
                #[trigger] entries_contain(entries@, key, o) <==> (0 <= o < index && kmer_at(
                    genome@,
                    kmer_size as int,
                    o,
                ) == key),
        decreases n_offsets - index,
    {
        let kmer = extract_kmer(genome, index, kmer_size);
        let ghost pre = entries@;
        match find_key(&entries, &kmer) {
            Some(n) => {
                let mut ent = entries.remove(n);
                ent.1.push(index);
                entries.insert(n, ent);
                proof {
                    assert(entries@ =~= pre.update(n as int, entries@[n as int]));
                    assert(entries@[n as int].0@ == kmer@);
                    assert(entries@[n as int].1@ == pre[n as int].1@.push(index));
                    assert forall|key: Seq<u8>, o: int|
                        #[trigger] entries_contain(entries@, key, o) implies (0 <= o < index + 1
                        && kmer_at(genome@, kmer_size as int, o) == key) by {
                        let w = choose|w: int|
                            0 <= w < entries@.len() && (#[trigger] entries@[w]).0@ == key
                                && offs_has(entries@[w].1@, o);
                        if w == n as int {
                            let m = choose|m: int|
                                0 <= m < entries@[w].1@.len() && entries@[w].1@[m] as int == o;
                            if m < pre[n as int].1@.len() {
                                assert(offs_has(pre[n as int].1@, o));
                                assert(entries_contain(pre, key, o));
                            } else {
                                assert(o == index);
                                assert(kmer_at(genome@, kmer_size as int, o) == key);
                            }
                        } else {
                            assert(offs_has(pre[w].1@, o));
                            assert(entries_contain(pre, key, o));
                        }
                    }
                    assert forall|key: Seq<u8>, o: int|
                        (0 <= o < index + 1 && kmer_at(genome@, kmer_size as int, o) == key)
                            implies #[trigger] entries_contain(entries@, key, o) by {
                        if o < index {
                            assert(entries_contain(pre, key, o));
                            let w = choose|w: int|
                                0 <= w < pre.len() && (#[trigger] pre[w]).0@ == key && offs_has(
                                    pre[w].1@,
                                    o,
                                );
                            if w == n as int {
                                let m = choose|m: int|
                                    0 <= m < pre[w].1@.len() && pre[w].1@[m] as int == o;
                                assert(entries@[w].1@[m] as int == o);
                                assert(offs_has(entries@[w].1@, o));
                            } else {
                                assert(offs_has(entries@[w].1@, o));
                            }
                            assert(entries_contain(entries@, key, o));
                        } else {
                            assert(o == index);
                            assert(key == kmer@);
                            let m = pre[n as int].1@.len();
                            assert(entries@[n as int].1@[m as int] as int == o);
                            assert(offs_has(entries@[n as int].1@, o));
                            assert(entries_contain(entries@, key, o));
                        }
                    }
                    assert forall|n2: int|
                        0 <= n2 < entries@.len() implies strictly_ascending(
                        (#[trigger] entries@[n2]).1@,
                    ) by {
                        if n2 == n as int {
                            assert(forall|m: int|
                                0 <= m < pre[n2].1@.len() ==> #[trigger] entries@[n2].1@[m]
                                    == pre[n2].1@[m]);
                        }
                    }
                    assert forall|n1: int, n2: int, o: int|
                        0 <= n1 < entries@.len() && 0 <= n2 < entries@.len() && n1 != n2
                            && #[trigger] offs_has(entries@[n1].1@, o) implies !(
                        #[trigger] offs_has(entries@[n2].1@, o)) by {
                        if n1 == n as int {
                            let m = choose|m: int|
                                0 <= m < entries@[n1].1@.len() && entries@[n1].1@[m] as int == o;
                            if m < pre[n1].1@.len() {
                                assert(offs_has(pre[n1].1@, o));
                            } else {
                                assert(o == index);
                            }
                        } else {
                            assert(offs_has(pre[n1].1@, o));
                            if n2 == n as int {
                                if offs_has(entries@[n2].1@, o) {
                                    let m = choose|m: int|
                                        0 <= m < entries@[n2].1@.len() && entries@[n2].1@[m] as int
                                            == o;
                                    if m < pre[n2].1@.len() {
                                        assert(offs_has(pre[n2].1@, o));
                                    } else {
                                        assert(o == index);
                                        assert(offs_has(pre[n1].1@, o));
                                    }
                                }
                            }
                        }
                    }
                }
            },
            None => {
                let mut offs: Vec<usize> = Vec::new();
                offs.push(index);
                entries.push((kmer, offs));
                proof {
                    assert(entries@ =~= pre.push(entries@[pre.len() as int]));
                    assert forall|key: Seq<u8>, o: int|
                        #[trigger] entries_contain(entries@, key, o) implies (0 <= o < index + 1
                        && kmer_at(genome@, kmer_size as int, o) == key) by {
                        let w = choose|w: int|
                            0 <= w < entries@.len() && (#[trigger] entries@[w]).0@ == key
                                && offs_has(entries@[w].1@, o);
                        if w < pre.len() {
                            assert(entries_contain(pre, key, o));
                        } else {
                            assert(o == index);
                        }
                    }
                    assert forall|key: Seq<u8>, o: int|
                        (0 <= o < index + 1 && kmer_at(genome@, kmer_size as int, o) == key)
                            implies #[trigger] entries_contain(entries@, key, o) by {
                        if o < index {
                            assert(entries_contain(pre, key, o));
                            let w = choose|w: int|
                                0 <= w < pre.len() && (#[trigger] pre[w]).0@ == key && offs_has(
                                    pre[w].1@,
                                    o,
                                );
                            assert(entries@[w].0@ == key);
                            assert(offs_has(entries@[w].1@, o));
                            assert(entries_contain(entries@, key, o));
                        } else {
                            let w = pre.len() as int;
                            assert(entries@[w].0@ == kmer@);
                            assert(entries@[w].1@[0] as int == index);
                            assert(offs_has(entries@[w].1@, o));
                            assert(entries_contain(entries@, key, o));
                        }
                    }
                    assert forall|n1: int, n2: int, o: int|
                        0 <= n1 < entries@.len() && 0 <= n2 < entries@.len() && n1 != n2
                            && #[trigger] offs_has(entries@[n1].1@, o) implies !(
                        #[trigger] offs_has(entries@[n2].1@, o)) by {
                        if n1 < pre.len() {
                            assert(offs_has(pre[n1].1@, o));
                            if n2 < pre.len() {
                            } else {
                                if offs_has(entries@[n2].1@, o) {
                                    assert(o == index);
                                }
                            }
                        } else {
                            assert(o == index);
                            if n2 < pre.len() {
                                if offs_has(entries@[n2].1@, o) {
                                    assert(offs_has(pre[n2].1@, o));
                                }
                            }
                        }
                    }
                }
            },
        }
        index = index + 1;
    }
    let idx = KmerIndex { entries };
    proof {
        assert forall|key: Seq<u8>, o: int|
            #[trigger] idx.contains_offset(key, o) implies (1 <= kmer_size <= genome@.len() && 0
            <= o <= genome@.len() - kmer_size && kmer_at(genome@, kmer_size as int, o) == key) by {
            assert(entries_contain(entries@, key, o));
        }
    }
    idx
}

/// Gap penalty between two chained anchors: `0` for a clean diagonal
/// extension (equal advance in both sequences), `1` when an indel is implied.
pub open spec fn spec_distance_function(i: int, j: int) -> int {
    if i == j {
        0
    } else {
        1
    }
}

/// Penalty charged when one anchor extends another: zero when the gap is the
/// same length in both sequences (a diagonal step), one otherwise.
pub fn distance_function(i: usize, j: usize) -> (r: i64)
    ensures
        r == spec_distance_function(i as int, j as int),
        0 <= r <= 1,
{
    if i == j {
        0
    } else {
        1
    }
}

/// Lexicographic order on position pairs: by first coordinate, then second.
pub open spec fn lex_lt(p: (usize, usize), q: (usize, usize)) -> bool {
    p.0 < q.0 || (p.0 == q.0 && p.1 < q.1)
}

/// Non-strict lexicographic order on position pairs.
pub open spec fn lex_le(p: (usize, usize), q: (usize, usize)) -> bool {
    p.0 < q.0 || (p.0 == q.0 && p.1 <= q.1)
}

/// The pair list is lexicographically sorted, allowing equal neighbours.
pub open spec fn sorted_lex(s: Seq<(usize, usize)>) -> bool {
    forall|n: int, m: int| 0 <= n < m < s.len() ==> lex_le(#[trigger] s[n], #[trigger] s[m])
}

/// Appends to `output` the full cross product of the two offset lists:
/// every offset of `a` paired with every offset of `b`, in `a`-major order.
pub fn cross_product(a: &Vec<usize>, b: &Vec<usize>, output: &mut Vec<(usize, usize)>)
    ensures
        final(output)@.len() == old(output)@.len() + a@.len() * b@.len(),
        forall|n: int|
            0 <= n < old(output)@.len() ==> final(output)@[n] == old(output)@[n],
        forall|x: int, y: int|
            0 <= x < a@.len() && 0 <= y < b@.len() ==> final(output)@[old(output)@.len()
                + x * b@.len() + y] == (a@[x], b@[y]),
        forall|n: int|
            old(output)@.len() <= n < final(output)@.len() ==> offs_has(
                a@,
                (#[trigger] final(output)@[n]).0 as int,
            ) && offs_has(b@, final(output)@[n].1 as int),
        strictly_ascending(a@) && strictly_ascending(b@) ==> forall|n: int, m: int|
            old(output)@.len() <= n < m < final(output)@.len() ==> lex_lt(
                #[trigger] final(output)@[n],
                #[trigger] final(output)@[m],
            ),
{
    let ghost base = output@.len() as int;
    let ghost asc = strictly_ascending(a@) && strictly_ascending(b@);
    let mut x: usize = 0;
    while x < a.len()
        invariant
            0 <= x <= a@.len(),
            output@.len() == base + x * b@.len(),
            base == old(output)@.len(),
            forall|n: int| 0 <= n < base ==> output@[n] == old(output)@[n],
            forall|p: int, y: int|
                0 <= p < x && 0 <= y < b@.len() ==> output@[base + p * b@.len() + y] == (
                a@[p],
                b@[y],
                ),
            forall|n: int|
                base <= n < output@.len() ==> offs_has(a@, (#[trigger] output@[n]).0 as int)
                    && offs_has(b@, output@[n].1 as int),
            asc == (strictly_ascending(a@) && strictly_ascending(b@)),
            asc ==> forall|n: int, m: int|
                base <= n < m < output@.len() ==> lex_lt(
                    #[trigger] output@[n],
                    #[trigger] output@[m],
                ),
            asc && x > 0 ==> forall|n: int|
                base <= n < output@.len() ==> (#[trigger] output@[n]).0 <= a@[x - 1],
        decreases a@.len() - x,
    {
        proof {
            if asc && x > 0 {
                assert(a@[x - 1] < a@[x as int]);
            }
        }
        let mut y: usize = 0;
        while y < b.len()
            invariant
                0 <= x < a@.len(),
                0 <= y <= b@.len(),
                output@.len() == base + x * b@.len() + y,
                base == old(output)@.len(),
                forall|n: int| 0 <= n < base ==> output@[n] == old(output)@[n],
                forall|p: int, q: int|
                    0 <= p < x && 0 <= q < b@.len() ==> output@[base + p * b@.len() + q] == (
                    a@[p],
                    b@[q],
                    ),
                forall|q: int|
                    0 <= q < y ==> output@[base + x * b@.len() + q] == (a@[x as int], b@[q]),
                forall|n: int|
                    base <= n < output@.len() ==> offs_has(a@, (#[trigger] output@[n]).0 as int)
                        && offs_has(b@, output@[n].1 as int),
                asc == (strictly_ascending(a@) && strictly_ascending(b@)),
                asc ==> forall|n: int, m: int|
                    base <= n < m < output@.len() ==> lex_lt(
                        #[trigger] output@[n],
                        #[trigger] output@[m],
                    ),
                asc ==> forall|n: int|
                    base <= n < output@.len() ==> (#[trigger] output@[n]).0 <= a@[x as int] && (
                    output@[n].0 == a@[x as int] ==> y > 0 && lex_le(
                        output@[n],
                        (a@[x as int], b@[y - 1]),
                    )),
        decreases b@.len() - y,
        {
            proof {
                assert(x * b@.len() + b@.len() <= a@.len() * b@.len()) by (nonlinear_arith)
                    requires
                        0 <= x < a@.len(),
                        b@.len() >= 0,
                ;
            }
            proof {
                if asc && y > 0 {
                    assert(b@[y - 1] < b@[y as int]);
                }
            }
            output.push((a[x], b[y]));
            y = y + 1;
            proof {
                assert forall|p: int|
                    0 <= p < x implies #[trigger] (p * b@.len()) + b@.len() <= x * b@.len() by {
                    assert(p * b@.len() + b@.len() <= x * b@.len()) by (nonlinear_arith)
                        requires
                            0 <= p < x,
                    ;
                }
            }
        }
        x = x + 1;
        proof {
            assert((x - 1) * b@.len() + b@.len() == x * b@.len()) by (nonlinear_arith);
        }
    }
}

/// Inserting an element anywhere in a sequence adds it to the multiset view.
proof fn lemma_insert_to_multiset(s: Seq<(usize, usize)>, p: int, x: (usize, usize))
    requires
        0 <= p <= s.len(),
    ensures
        s.insert(p, x).to_multiset() =~= s.to_multiset().insert(x),
{
    broadcast use vstd::seq_lib::group_to_multiset_ensures;

    let front = s.subrange(0, p);
    let back = s.subrange(p, s.len() as int);
    assert(s.insert(p, x) =~= front.push(x) + back);
    assert(s =~= front + back);
    vstd::seq_lib::lemma_multiset_commutative(front.push(x), back);
    vstd::seq_lib::lemma_multiset_commutative(front, back);
    assert(front.push(x).to_multiset() =~= front.to_multiset().insert(x));
}

/// Sorts the pair list in place into ascending lexicographic order,
/// preserving the multiset of pairs (an insertion sort).
fn sort_pairs(v: &mut Vec<(usize, usize)>)
    ensures
        sorted_lex(final(v)@),
        final(v)@.to_multiset() == old(v)@.to_multiset(),
{
    let mut s: usize = 1;
    while s < v.len()
        invariant
            s >= 1,
            s <= v@.len() || v@.len() == 0,
            v@.to_multiset() == old(v)@.to_multiset(),
            forall|n: int, m: int| 0 <= n < m < s ==> lex_le(#[trigger] v@[n], #[trigger] v@[m]),
        decreases v@.len() - s,
    {
        broadcast use vstd::seq_lib::group_to_multiset_ensures;

        let ghost pre = v@;
        let x = v.remove(s);
        let ghost mid = v@;
        let mut p: usize = 0;
        loop
            invariant_except_break
                p <= s,
                s < pre.len(),
                v@ == mid,
                mid == pre.remove(s as int),
                x == pre[s as int],
                forall|n: int, m: int|
                    0 <= n < m < s ==> lex_le(#[trigger] mid[n], #[trigger] mid[m]),
                forall|n: int| 0 <= n < p ==> lex_le(#[trigger] mid[n], x),
            ensures
                p <= s,
                v@ == mid,
                forall|n: int| 0 <= n < p ==> lex_le(#[trigger] mid[n], x),
                p < s ==> !lex_le(mid[p as int], x),
            decreases s - p,
        {
            if p >= s {
                break ;
            }
            let e = v[p];
            if e.0 < x.0 || (e.0 == x.0 && e.1 <= x.1) {
                p = p + 1;
            } else {
                break ;
            }
        }
        v.insert(p, x);
        proof {
            lemma_insert_to_multiset(mid, p as int, x);
            assert(mid.to_multiset() =~= pre.to_multiset().remove(x));
            assert(pre.to_multiset().contains(x));
            assert(v@.to_multiset() =~= pre.to_multiset());
            // the sorted prefix grew by one
            assert forall|n: int, m: int| 0 <= n < m < s + 1 implies lex_le(
                #[trigger] v@[n],
                #[trigger] v@[m],
            ) by {
                if m < p {
                    assert(v@[n] == mid[n] && v@[m] == mid[m]);
                } else if m == p {
                    assert(v@[m] == x);
                    assert(lex_le(mid[n], x));
                } else {
                    assert(v@[m] == mid[m - 1]);
                    if n < p {
                        assert(lex_le(mid[n], mid[m - 1]) || n == m - 1);
                    } else if n == p {
                        assert(v@[n] == x);
                        assert(p < s && !lex_le(mid[p as int], x));
                        assert(lex_lt(x, mid[p as int]));
                        assert(p as int <= m - 1 < s);
                        assert(lex_le(mid[p as int], mid[m - 1]) || p as int == m - 1);
                    } else {
                        assert(v@[n] == mid[n - 1]);
                        assert(lex_le(mid[n - 1], mid[m - 1]) || n - 1 == m - 1);
                    }
                }
            }
        }
        s = s + 1;
    }
}

/// The two indexes share a k-mer that occurs at offset `p.0` in the first
/// sequence and at offset `p.1` in the second.
pub open spec fn indexes_match(first: KmerIndex, second: KmerIndex, p: (usize, usize)) -> bool {
    exists|key: Seq<u8>|
        #[trigger] first.contains_offset(key, p.0 as int) && second.contains_offset(
            key,
            p.1 as int,
        )
}

/// Intersects two k-mer indexes built with the same size: for every k-mer
/// present in both, every pairing of an offset in the first with an offset in
/// the second is emitted, and the whole list is sorted lexicographically.
/// The result holds a pair exactly when the two sequences share a k-mer at
/// those offsets, and holds no duplicates.
pub fn calculate_and_sort_matches(first_kmers: &KmerIndex, second_kmers: &KmerIndex) -> (r: Vec<
    (usize, usize),
>)
    requires
        first_kmers.wf(),
        second_kmers.wf(),
    ensures
        sorted_lex(r@),
        r@.no_duplicates(),
        forall|p: (usize, usize)|
            #[trigger] r@.contains(p) <==> indexes_match(*first_kmers, *second_kmers, p),
{
    let mut matches: Vec<(usize, usize)> = Vec::new();
    let mut e: usize = 0;
    while e < first_kmers.entries.len()
        invariant
            first_kmers.wf(),
            second_kmers.wf(),
            0 <= e <= first_kmers.entries@.len(),
            matches@.no_duplicates(),
            forall|p: (usize, usize)|
                #[trigger] matches@.contains(p) <==> exists|n: int|
                    0 <= n < e && offs_has((#[trigger] first_kmers.entries@[n]).1@, p.0 as int)
                        && entries_contain(second_kmers.entries@, first_kmers.entries@[n].0@, p.1 as int),
        decreases first_kmers.entries@.len() - e,
    {
        let ghost pre = matches@;
        match find_key(&second_kmers.entries, &first_kmers.entries[e].0) {
            Some(se) => {
                cross_product(
                    &first_kmers.entries[e].1,
                    &second_kmers.entries[se].1,
                    &mut matches,
                );
                proof {
                    let ghost a = first_kmers.entries@[e as int].1@;
                    let ghost b = second_kmers.entries@[se as int].1@;
                    let ghost key = first_kmers.entries@[e as int].0@;
                    // new block pairs are exactly the shared occurrences of this key
                    assert forall|p: (usize, usize)| #[trigger] matches@.contains(p) implies (
                    exists|n: int|
                        0 <= n < e + 1 && offs_has(
                            (#[trigger] first_kmers.entries@[n]).1@,
                            p.0 as int,
                        ) && entries_contain(
                            second_kmers.entries@,
                            first_kmers.entries@[n].0@,
                            p.1 as int,
                        )) by {
                        let t = choose|t: int| 0 <= t < matches@.len() && matches@[t] == p;
                        if t < pre.len() {
                            assert(pre.contains(p));
                        } else {
                            assert(offs_has(a, p.0 as int) && offs_has(b, p.1 as int));
                            assert(second_kmers.entries@[se as int].0@ == key);
                            assert(entries_contain(second_kmers.entries@, key, p.1 as int));
                            assert(0 <= e < e + 1 && offs_has(
                                first_kmers.entries@[e as int].1@,
                                p.0 as int,
                            ));
                        }
                    }
                    assert forall|p: (usize, usize)|
                        (exists|n: int|
                            0 <= n < e + 1 && offs_has(
                                (#[trigger] first_kmers.entries@[n]).1@,
                                p.0 as int,
                            ) && entries_contain(
                                second_kmers.entries@,
                                first_kmers.entries@[n].0@,
                                p.1 as int,
                            )) implies #[trigger] matches@.contains(p) by {
                        let n = choose|n: int|
                            0 <= n < e + 1 && offs_has(
                                (#[trigger] first_kmers.entries@[n]).1@,
                                p.0 as int,
                            ) && entries_contain(
                                second_kmers.entries@,
                                first_kmers.entries@[n].0@,
                                p.1 as int,
                            );
                        if n < e {
                            assert(pre.contains(p));
                            let t = choose|t: int| 0 <= t < pre.len() && pre[t] == p;
                            assert(matches@[t] == p);
                        } else {
                            // the pair comes from this block of the cross product
                            let xw = choose|m: int| 0 <= m < a.len() && a[m] as int == p.0 as int;
                            let n2 = choose|n2: int|
                                0 <= n2 < second_kmers.entries@.len() && (
                                #[trigger] second_kmers.entries@[n2]).0@ == key && offs_has(
                                    second_kmers.entries@[n2].1@,
                                    p.1 as int,
                                );
                            assert(n2 == se as int);
                            let yw = choose|m: int| 0 <= m < b.len() && b[m] as int == p.1 as int;
                            assert(matches@[pre.len() + xw * b.len() + yw] == (a[xw], b[yw]));
                            assert(pre.len() + xw * b.len() + yw < matches@.len()) by (nonlinear_arith)
                                requires
                                    0 <= xw < a.len(),
                                    0 <= yw < b.len(),
                                    matches@.len() == pre.len() + a.len() * b.len(),
                            ;
                            assert((a[xw], b[yw]) == p);
                        }
                    }
                    // no duplicates: the block is strictly sorted, and its first
                    // coordinates come from an offset list disjoint from all
                    // earlier entries
                    assert forall|t1: int, t2: int|
                        0 <= t1 < t2 < matches@.len() implies #[trigger] matches@[t1]
                        != #[trigger] matches@[t2] by {
                        if t1 < pre.len() && t2 >= pre.len() {
                            let p1 = matches@[t1];
                            assert(pre.contains(p1));
                            let n = choose|n: int|
                                0 <= n < e && offs_has(
                                    (#[trigger] first_kmers.entries@[n]).1@,
                                    p1.0 as int,
                                ) && entries_contain(
                                    second_kmers.entries@,
                                    first_kmers.entries@[n].0@,
                                    p1.1 as int,
                                );
                            assert(offs_has(first_kmers.entries@[n].1@, p1.0 as int));
                            if matches@[t1] == matches@[t2] {
                                assert(offs_has(a, p1.0 as int));
                                assert(offs_has(first_kmers.entries@[e as int].1@, p1.0 as int));
                            }
                        } else if t1 >= pre.len() {
                            assert(lex_lt(matches@[t1], matches@[t2]));
                        }
                    }
                }
            },
            None => {
                proof {
                    assert forall|p: (usize, usize)| #[trigger] matches@.contains(p) implies (
                    exists|n: int|
                        0 <= n < e + 1 && offs_has(
                            (#[trigger] first_kmers.entries@[n]).1@,
                            p.0 as int,
                        ) && entries_contain(
                            second_kmers.entries@,
                            first_kmers.entries@[n].0@,
                            p.1 as int,
                        )) by {}
                    assert forall|p: (usize, usize)|
                        (exists|n: int|
                            0 <= n < e + 1 && offs_has(
                                (#[trigger] first_kmers.entries@[n]).1@,
                                p.0 as int,
                            ) && entries_contain(
                                second_kmers.entries@,
                                first_kmers.entries@[n].0@,
                                p.1 as int,
                            )) implies #[trigger] matches@.contains(p) by {
                        let n = choose|n: int|
                            0 <= n < e + 1 && offs_has(
                                (#[trigger] first_kmers.entries@[n]).1@,
                                p.0 as int,
                            ) && entries_contain(
                                second_kmers.entries@,
                                first_kmers.entries@[n].0@,
                                p.1 as int,
                            );
                        if n == e as int {
                            let key = first_kmers.entries@[e as int].0@;
                            assert(entries_contain(second_kmers.entries@, key, p.1 as int));
                            let n2 = choose|n2: int|
                                0 <= n2 < second_kmers.entries@.len() && (
                                #[trigger] second_kmers.entries@[n2]).0@ == key && offs_has(
                                    second_kmers.entries@[n2].1@,
                                    p.1 as int,
                                );
                            assert(false);
                        }
                    }
                }
            },
        }
        e = e + 1;
    }
    let ghost unsorted = matches@;
    sort_pairs(&mut matches);
    proof {
        broadcast use vstd::seq_lib::group_to_multiset_ensures;

        unsorted.lemma_multiset_has_no_duplicates();
        matches@.lemma_multiset_has_no_duplicates_conv();
        assert forall|p: (usize, usize)| #[trigger] matches@.contains(p) implies indexes_match(
            *first_kmers,
            *second_kmers,
            p,
        ) by {
            assert(matches@.to_multiset().count(p) > 0);
            assert(unsorted.to_multiset().count(p) > 0);
            assert(unsorted.contains(p));
            let n = choose|n: int|
                0 <= n < first_kmers.entries@.len() && offs_has(
                    (#[trigger] first_kmers.entries@[n]).1@,
                    p.0 as int,
                ) && entries_contain(
                    second_kmers.entries@,
                    first_kmers.entries@[n].0@,
                    p.1 as int,
                );
            let key = first_kmers.entries@[n].0@;
            assert(first_kmers.contains_offset(key, p.0 as int));
            assert(second_kmers.contains_offset(key, p.1 as int));
        }
        assert forall|p: (usize, usize)| indexes_match(*first_kmers, *second_kmers, p) implies
            #[trigger] matches@.contains(p) by {
            let key = choose|key: Seq<u8>|
                #[trigger] first_kmers.contains_offset(key, p.0 as int)
                    && second_kmers.contains_offset(key, p.1 as int);
            let n = choose|n: int|
                0 <= n < first_kmers.entries@.len() && (#[trigger] first_kmers.entries@[n]).0@
                    == key && offs_has(first_kmers.entries@[n].1@, p.0 as int);
            assert(entries_contain(second_kmers.entries@, first_kmers.entries@[n].0@, p.1 as int));
            assert(unsorted.contains(p));
            assert(unsorted.to_multiset().count(p) > 0);
            assert(matches@.to_multiset().count(p) > 0);
        }
    }
    matches
}

/// The pair list is strictly increasing in both coordinates: each step of an
/// anchor path advances in both sequences.
pub open spec fn strictly_chained(s: Seq<(usize, usize)>) -> bool {
    forall|n: int, m: int|
        0 <= n < m < s.len() ==> (#[trigger] s[n]).0 < (#[trigger] s[m]).0 && s[n].1 < s[m].1
}

/// Every pair's first coordinate is below `b1` and second below `b2`.
pub open spec fn coords_below(s: Seq<(usize, usize)>, b1: int, b2: int) -> bool {
    forall|n: int| 0 <= n < s.len() ==> (#[trigger] s[n]).0 < b1 && s[n].1 < b2
}

/// The cursor state of the gap-aware scorer: how far the shared walk has
/// advanced (`total`), how far each sequence's own cursor has advanced, and
/// how many gap positions each sequence has accumulated.
pub struct GapState {
    pub total: int,
    pub first_index: int,
    pub first_gap: int,
    pub second_index: int,
    pub second_gap: int,
}

/// One step of the scorer's walk toward the pair `(q, s)`: each cursor
/// advances if it has not yet reached its target, and otherwise counts a gap.
pub open spec fn gap_step(st: GapState, q: int, s: int) -> GapState {
    GapState {
        total: st.total + 1,
        first_index: if st.first_index < q {
            st.first_index + 1
        } else {
            st.first_index
        },
        first_gap: if st.first_index < q {
            st.first_gap
        } else {
            st.first_gap + 1
        },
        second_index: if st.second_index < s {
            st.second_index + 1
        } else {
            st.second_index
        },
        second_gap: if st.second_index < s {
            st.second_gap
        } else {
            st.second_gap + 1
        },
    }
}

/// Walks the scorer's cursors until the shared counter reaches the pair
/// `(q, s)`.
pub open spec fn gap_advance(st: GapState, q: int, s: int) -> GapState
    decreases vstd::math::max(q, s) - st.total,
{
    if st.total < vstd::math::max(q, s) {
        gap_advance(gap_step(st, q, s), q, s)
    } else {
        st
    }
}

/// The scorer's state after consuming the first `n` pairs of the path.
pub open spec fn gap_states(pairs: Seq<(usize, usize)>, n: int) -> GapState
    decreases n,
{
    if n <= 0 {
        GapState { total: 0, first_index: 0, first_gap: 0, second_index: 0, second_gap: 0 }
    } else {
        gap_states(pairs, n - 1).advance_to(pairs[n - 1])
    }
}

impl GapState {
    /// Walks this state forward to the given pair.
    pub open spec fn advance_to(self, p: (usize, usize)) -> GapState {
        gap_advance(self, p.0 as int, p.1 as int)
    }
}

/// The alignment length the scorer normalizes by: each sequence's length plus
/// the gaps the anchor path implies in it, whichever is larger.
pub open spec fn spec_alignment_length(
    first_len: int,
    second_len: int,
    pairs: Seq<(usize, usize)>,
) -> int {
    let g = gap_states(pairs, pairs.len() as int);
    vstd::math::max(first_len + g.first_gap, second_len + g.second_gap)
}

/// In a pair list that strictly increases in both coordinates, the pair at
/// position `n` has coordinates at least `n`.
proof fn lemma_chained_lower(s: Seq<(usize, usize)>, n: int)
    requires
        strictly_chained(s),
        0 <= n < s.len(),
    ensures
        s[n].0 >= n && s[n].1 >= n,
    decreases n,
{
    if n > 0 {
        lemma_chained_lower(s, n - 1);
        assert((s[n - 1]).0 < (s[n]).0 && (s[n - 1]).1 < (s[n]).1);
    }
}

/// Powers of two, used to bound how fast chain scores can grow.
pub open spec fn pow2(n: int) -> int
    decreases n,
{
    if n <= 0 {
        1
    } else {
        2 * pow2(n - 1)
    }
}

/// Powers of two are monotone.
proof fn lemma_pow2_mono(a: int, b: int)
    requires
        a <= b,
    ensures
        pow2(a) <= pow2(b),
    decreases b - a,
{
    if a < b {
        lemma_pow2_mono(a, b - 1);
        assert(pow2(b - 1) >= 1) by {
            lemma_pow2_pos(b - 1);
        }
    }
}

/// Powers of two are positive.
proof fn lemma_pow2_pos(n: int)
    ensures
        pow2(n) >= 1,
    decreases n,
{
    if n > 0 {
        lemma_pow2_pos(n - 1);
    }
}

/// The chain-score limit: one more doubling would leave the window in which
/// the greedy chain scores are known to stay exact.
pub const SCORE_CAP: i64 = 0x1000_0000_0000_0000;

/// `SCORE_CAP` is the sixtieth power of two.
proof fn lemma_pow2_cap()
    ensures
        pow2(60) == SCORE_CAP as int,
{
    reveal_with_fuel(pow2, 62);
}

/// One accepted anchor of the heuristic chain: its position pair, the index
/// of the match pair that produced it (`-1` for the synthetic origin), and
/// its chain score.
struct MatchState {
    index: (usize, usize),
    match_index: i64,
    score: i64,
}

/// Walks the anchor path and scores it: both cursors advance together; a
/// cursor that has already reached an anchor's coordinate counts gaps instead.
/// The distance is one minus the fraction of the alignment length covered by
/// anchors, reported exactly as a ratio. An empty path over two empty
/// sequences counts as a full-length (empty) alignment of length one.
pub fn calculate_distances(
    first_sequence_len: usize,
    second_sequence_len: usize,
    match_pairs: &Vec<(usize, usize)>,
) -> (r: DistanceRatio)
    requires
        strictly_chained(match_pairs@),
        coords_below(match_pairs@, first_sequence_len as int, second_sequence_len as int),
        first_sequence_len + second_sequence_len <= usize::MAX,
    ensures
        r.wf(),
        r.denominator as int == ({
            let align = spec_alignment_length(
                first_sequence_len as int,
                second_sequence_len as int,
                match_pairs@,
            );
            if align >= 1 {
                align
            } else {
                1
            }
        }),
        r.numerator as int == r.denominator - match_pairs@.len(),
{
    let ghost pairs = match_pairs@;
    let mut total: usize = 0;
    let mut first_index: usize = 0;
    let mut second_index: usize = 0;
    let mut first_gap: usize = 0;
    let mut second_gap: usize = 0;
    let mut pi: usize = 0;
    while pi < match_pairs.len()
        invariant
            pairs == match_pairs@,
            strictly_chained(pairs),
            coords_below(pairs, first_sequence_len as int, second_sequence_len as int),
            first_sequence_len + second_sequence_len <= usize::MAX,
            0 <= pi <= pairs.len(),
            (GapState {
                total: total as int,
                first_index: first_index as int,
                first_gap: first_gap as int,
                second_index: second_index as int,
                second_gap: second_gap as int,
            }) == gap_states(pairs, pi as int),
            total == first_index + first_gap,
            total == second_index + second_gap,
            first_gap <= second_index,
            second_gap <= first_index,
            first_index <= first_sequence_len,
            second_index <= second_sequence_len,
        decreases pairs.len() - pi,
    {
        let (query_pair_index, subject_pair_index) = match_pairs[pi];
        let ghost q = query_pair_index as int;
        let ghost s = subject_pair_index as int;
        let target = if query_pair_index > subject_pair_index {
            query_pair_index
        } else {
            subject_pair_index
        };
        while total < target
            invariant
                q == query_pair_index as int,
                s == subject_pair_index as int,
                q < first_sequence_len && s < second_sequence_len,
                target as int == vstd::math::max(q, s),
                first_sequence_len + second_sequence_len <= usize::MAX,
                gap_advance(
                    (GapState {
                        total: total as int,
                        first_index: first_index as int,
                        first_gap: first_gap as int,
                        second_index: second_index as int,
                        second_gap: second_gap as int,
                    }),
                    q,
                    s,
                ) == gap_states(pairs, pi + 1),
                total == first_index + first_gap,
                total == second_index + second_gap,
                first_gap <= second_index,
                second_gap <= first_index,
                first_index <= first_sequence_len,
                second_index <= second_sequence_len,
            decreases target - total,
        {
            proof {
                let cur = GapState {
                    total: total as int,
                    first_index: first_index as int,
                    first_gap: first_gap as int,
                    second_index: second_index as int,
                    second_gap: second_gap as int,
                };
                assert(gap_advance(cur, q, s) == gap_advance(gap_step(cur, q, s), q, s));
                // a step never stalls both cursors at once
                if first_index as int >= q && second_index as int >= s {
                    assert(total as int >= q && total as int >= s);
                }
            }
            if first_index < query_pair_index {
                first_index = first_index + 1;
            } else {
                first_gap = first_gap + 1;
            }
            if second_index < subject_pair_index {
                second_index = second_index + 1;
            } else {
                second_gap = second_gap + 1;
            }
            total = total + 1;
        }
        pi = pi + 1;
    }
    let first_total = first_sequence_len + first_gap;
    let second_total = second_sequence_len + second_gap;
    let alignment_length = if first_total > second_total {
        first_total
    } else {
        second_total
    };
    let denominator = if alignment_length == 0 {
        1
    } else {
        alignment_length
    };
    proof {
        if pairs.len() > 0 {
            lemma_chained_lower(pairs, pairs.len() - 1);
            assert(pairs[pairs.len() - 1].0 < first_sequence_len);
            assert(pairs.len() <= first_sequence_len);
        }
    }
    let numerator = denominator - match_pairs.len();
    DistanceRatio { numerator, denominator }
}

/// One anchor of the specification-level chain state: its position pair,
/// the index of the match pair that produced it (negative one for the
/// synthetic origin), and its chain score.
pub struct ChainAnchor {
    pub pair: (usize, usize),
    pub match_index: int,
    pub score: int,
}

/// The specification-level state of the chain aligner: the score-ordered
/// anchor list, the recorded predecessor of each match pair, and whether
/// some score has outgrown `SCORE_CAP`.
pub struct ChainState {
    pub anchors: Seq<ChainAnchor>,
    pub backtrace: Seq<int>,
    pub failed: bool,
}

/// The candidate's scan over the anchor list for match position `(i, j)`:
/// the first anchor strictly below the candidate in both coordinates whose
/// gap-penalized extension does not lose score is adopted, and the scan
/// restarts from the top. Returns the final score, the last adopted
/// predecessor's match index (negative one when none), and whether the
/// score limit was hit.
pub open spec fn spec_improve(
    anchors: Seq<ChainAnchor>,
    i: int,
    j: int,
    cand: int,
    pred: int,
    pp: int,
) -> (int, int, bool)
    decreases SCORE_CAP as int - cand, anchors.len() - pp,
        when 1 <= cand <= SCORE_CAP as int && 0 <= pp
{
    if pp >= anchors.len() {
        (cand, pred, false)
    } else {
        let a = anchors[pp];
        if i > a.pair.0 as int && j > a.pair.1 as int {
            let ext = a.score - spec_distance_function(i - a.pair.0 as int, j - a.pair.1 as int);
            if ext >= cand {
                if ext + cand > SCORE_CAP as int {
                    (cand, pred, true)
                } else {
                    spec_improve(anchors, i, j, ext + cand, a.match_index, 0)
                }
            } else {
                spec_improve(anchors, i, j, cand, pred, pp + 1)
            }
        } else {
            spec_improve(anchors, i, j, cand, pred, pp + 1)
        }
    }
}

/// Where a finished candidate with score `cand` is inserted, scanning from
/// `pos`: before the first anchor with a strictly smaller score, so that
/// anchors with equal scores keep their insertion order.
pub open spec fn spec_insert_pos(anchors: Seq<ChainAnchor>, cand: int, pos: int) -> int
    decreases anchors.len() - pos,
        when 0 <= pos
{
    if pos >= anchors.len() {
        pos
    } else if anchors[pos].score < cand {
        pos
    } else {
        spec_insert_pos(anchors, cand, pos + 1)
    }
}

/// Consumes match pair `mi`: the candidate anchor scans for improvements,
/// the last adopted predecessor is recorded over the match's backtrace
/// entry, and the finished candidate joins the score-ordered anchor list.
pub open spec fn spec_chain_step(st: ChainState, km: Seq<(usize, usize)>, mi: int) -> ChainState {
    if st.failed {
        st
    } else {
        let i = km[mi].0 as int;
        let j = km[mi].1 as int;
        let res = spec_improve(st.anchors, i, j, 1, -1, 0);
        if res.2 {
            ChainState { anchors: st.anchors, backtrace: st.backtrace, failed: true }
        } else {
            ChainState {
                anchors: st.anchors.insert(
                    spec_insert_pos(st.anchors, res.0, 0),
                    ChainAnchor { pair: km[mi], match_index: mi, score: res.0 },
                ),
                backtrace: st.backtrace.update(mi, res.1),
                failed: false,
            }
        }
    }
}

/// The chain state after the first `n` match pairs, seeded with the
/// synthetic origin anchor and an empty backtrace.
pub open spec fn spec_chain(km: Seq<(usize, usize)>, n: int) -> ChainState
    decreases n,
{
    if n <= 0 {
        ChainState {
            anchors: seq![ChainAnchor { pair: (0usize, 0usize), match_index: -1, score: 0 }],
            backtrace: Seq::new(km.len(), |t: int| -1),
            failed: false,
        }
    } else {
        spec_chain_step(spec_chain(km, n - 1), km, n - 1)
    }
}

/// The first anchor at or after `t` whose pair equals `target`, or the list
/// length when none matches.
pub open spec fn spec_find_pair(anchors: Seq<ChainAnchor>, target: (usize, usize), t: int) -> int
    decreases anchors.len() - t,
        when 0 <= t
{
    if t >= anchors.len() {
        t
    } else if anchors[t].pair == target {
        t
    } else {
        spec_find_pair(anchors, target, t + 1)
    }
}

/// The traceback walk: from the anchor at `cur`, look up the recorded
/// predecessor of the current anchor's match pair and jump to the first
/// anchor that carries the predecessor's pair, gathering pairs terminal
/// first until an anchor without a recorded predecessor.
pub open spec fn spec_walk(
    anchors: Seq<ChainAnchor>,
    backtrace: Seq<int>,
    km: Seq<(usize, usize)>,
    cur: int,
) -> Seq<(usize, usize)>
    decreases anchors[cur].pair.0,
        when 0 <= cur < anchors.len()
{
    let pair = anchors[cur].pair;
    let mi = anchors[cur].match_index;
    if !(0 <= mi < backtrace.len() && 0 <= mi < km.len()) {
        seq![pair]
    } else if backtrace[mi] < 0 || backtrace[mi] >= km.len() {
        seq![pair]
    } else {
        let nxt = spec_find_pair(anchors, km[backtrace[mi]], 0);
        if 0 <= nxt < anchors.len() && (anchors[nxt].pair.0 as int) < pair.0 as int {
            seq![pair] + spec_walk(anchors, backtrace, km, nxt)
        } else {
            seq![pair]
        }
    }
}

/// The alignment path the aligner returns for the sorted match list `km`:
/// empty when there are no matches, otherwise the traceback walk from the
/// best anchor, reversed into origin-to-terminal order.
pub open spec fn spec_p_alignment(km: Seq<(usize, usize)>) -> Seq<(usize, usize)> {
    if km.len() == 0 {
        Seq::empty()
    } else {
        let st = spec_chain(km, km.len() as int);
        spec_walk(st.anchors, st.backtrace, km, 0).reverse()
    }
}

/// Once a chain state has failed, every later state has failed too.
proof fn lemma_failed_sticky(km: Seq<(usize, usize)>, n1: int, n2: int)
    requires
        0 <= n1 <= n2,
        spec_chain(km, n1).failed,
    ensures
        spec_chain(km, n2).failed,
    decreases n2,
{
    if n2 > n1 {
        lemma_failed_sticky(km, n1, n2 - 1);
    }
}

/// The specification view of the executable anchor list.
spec fn view_anchors(s: Seq<MatchState>) -> Seq<ChainAnchor> {
    s.map_values(
        |a: MatchState|
            ChainAnchor { pair: a.index, match_index: a.match_index as int, score: a.score as int },
    )
}

/// The specification view of the executable backtrace table.
spec fn view_backtrace(s: Seq<i64>) -> Seq<int> {
    s.map_values(|x: i64| x as int)
}

/// Some anchor in the list was produced by match pair `mm`.
spec fn has_anchor(anchors: Seq<MatchState>, mm: int) -> bool {
    exists|n: int| 0 <= n < anchors.len() && (#[trigger] anchors[n]).match_index == mm as i64
}

/// Builds the greedy heuristic alignment path through the sorted match-pair
/// list. A synthetic origin anchor seeds the chain; each match pair becomes a
/// candidate anchor and greedily adopts the first existing anchor that
/// improves its gap-penalized score, restarting its scan after every
/// improvement; anchors live in a list ordered by descending score, and the
/// path is read off the best anchor's predecessor links, origin first.
///
/// The result strictly increases in both coordinates, consists solely of
/// input match pairs, and is empty exactly when the input is. Chain scores
/// are capped: an input that would push a score beyond `SCORE_CAP` (which
/// needs sixty-one or more match pairs) reports `ScoreLimitExceeded` instead
/// of returning a wrong chain.
pub fn find_p_alignment(kmer_matches: &Vec<(usize, usize)>) -> (r: Result<
    Vec<(usize, usize)>,
    DistanceError,
>)
    requires
        sorted_lex(kmer_matches@),
        kmer_matches@.len() < 0x7fff_ffff_ffff_ffff,
    ensures
        match r {
            Ok(path) => {
                &&& path@ == spec_p_alignment(kmer_matches@)
                &&& !spec_chain(kmer_matches@, kmer_matches@.len() as int).failed
                &&& strictly_chained(path@)
                &&& forall|n: int|
                    0 <= n < path@.len() ==> kmer_matches@.contains(#[trigger] path@[n])
                &&& (path@.len() == 0 <==> kmer_matches@.len() == 0)
            },
            Err(e) => {
                &&& e == DistanceError::ScoreLimitExceeded
                &&& kmer_matches@.len() >= 61
                &&& spec_chain(kmer_matches@, kmer_matches@.len() as int).failed
            },
        },
{
    let ghost km = kmer_matches@;
    let m_total = kmer_matches.len();
    let mut backtrace: Vec<i64> = Vec::new();
    let mut t: usize = 0;
    while t < m_total
        invariant
            backtrace@.len() == t,
            t <= m_total,
            forall|n: int| 0 <= n < t ==> backtrace@[n] == -1i64,
        decreases m_total - t,
    {
        backtrace.push(-1);
        t = t + 1;
    }
    let mut p_alignment: Vec<MatchState> = Vec::new();
    p_alignment.push(MatchState { index: (0, 0), match_index: -1, score: 0 });
    proof {
        assert(view_anchors(p_alignment@) =~= spec_chain(km, 0).anchors);
        assert(view_backtrace(backtrace@) =~= spec_chain(km, 0).backtrace);
    }

    let mut match_index: usize = 0;
    while match_index < m_total
        invariant
            km == kmer_matches@,
            sorted_lex(km),
            m_total == km.len(),
            m_total < 0x7fff_ffff_ffff_ffff,
            0 <= match_index <= m_total,
            backtrace@.len() == m_total,
            p_alignment@.len() == match_index + 1,
            // descending scores
            forall|n: int, m: int|
                0 <= n < m < p_alignment@.len() ==> (#[trigger] p_alignment@[n]).score >= (
                #[trigger] p_alignment@[m]).score,
            // the synthetic origin sits last
            p_alignment@[p_alignment@.len() - 1].match_index == -1i64,
            p_alignment@[p_alignment@.len() - 1].index == (0usize, 0usize),
            p_alignment@[p_alignment@.len() - 1].score == 0i64,
            // every other anchor carries its match pair
            forall|n: int|
                0 <= n < p_alignment@.len() - 1 ==> 0 <= (#[trigger] p_alignment@[n]).match_index
                    < match_index && km[p_alignment@[n].match_index as int]
                    == p_alignment@[n].index,
            // every processed match has an anchor
            forall|mm: int| 0 <= mm < match_index ==> #[trigger] has_anchor(p_alignment@, mm),
            // score bounds
            forall|n: int|
                0 <= n < p_alignment@.len() ==> 0 <= (#[trigger] p_alignment@[n]).score
                    <= SCORE_CAP,
            forall|n: int|
                0 <= n < p_alignment@.len() ==> (#[trigger] p_alignment@[n]).score <= pow2(
                    match_index as int,
                ),
            // recorded predecessors strictly dominate their match, and point
            // backwards
            forall|mm: int|
                0 <= mm < m_total ==> backtrace@[mm] == -1i64 || (0 <= #[trigger] backtrace@[mm]
                    < mm && (km[backtrace@[mm] as int]).0 < (km[mm]).0 && (
                km[backtrace@[mm] as int]).1 < (km[mm]).1),
            forall|mm: int| match_index <= mm < m_total ==> backtrace@[mm] == -1i64,
            // the run mirrors the specification state machine
            !spec_chain(km, match_index as int).failed,
            view_anchors(p_alignment@) == spec_chain(km, match_index as int).anchors,
            view_backtrace(backtrace@) == spec_chain(km, match_index as int).backtrace,
        decreases m_total - match_index,
    {
        let (i, j) = kmer_matches[match_index];
        let mut cand_score: i64 = 1;
        let mut pp: usize = 0;
        let ghost pre_anchors = p_alignment@;
        let ghost pre_backtrace = backtrace@;
        let ghost spec_anchors = spec_chain(km, match_index as int).anchors;
        let ghost mut g_pred: int = -1;
        proof {
            lemma_pow2_pos(match_index as int + 1);
            assert(forall|mm: int|
                match_index <= mm < m_total ==> #[trigger] pre_backtrace[mm] == -1i64);
        }
        while pp < p_alignment.len()
            invariant
                km == kmer_matches@,
                m_total == km.len(),
                m_total < 0x7fff_ffff_ffff_ffff,
                0 <= match_index < m_total,
                (i, j) == km[match_index as int],
                backtrace@.len() == m_total,
                pre_backtrace.len() == m_total,
                p_alignment@ == pre_anchors,
                p_alignment@.len() == match_index + 1,
                forall|n: int, m: int|
                    0 <= n < m < p_alignment@.len() ==> (#[trigger] p_alignment@[n]).score >= (
                    #[trigger] p_alignment@[m]).score,
                p_alignment@[p_alignment@.len() - 1].match_index == -1i64,
                p_alignment@[p_alignment@.len() - 1].index == (0usize, 0usize),
                p_alignment@[p_alignment@.len() - 1].score == 0i64,
                forall|n: int|
                    0 <= n < p_alignment@.len() - 1 ==> 0 <= (
                    #[trigger] p_alignment@[n]).match_index < match_index && km[p_alignment@[n].match_index as int]
                        == p_alignment@[n].index,
                0 <= pp <= p_alignment@.len(),
                1 <= cand_score <= SCORE_CAP,
                cand_score <= pow2(match_index as int + 1),
                spec_anchors == view_anchors(pre_anchors),
                spec_anchors == spec_chain(km, match_index as int).anchors,
                !spec_chain(km, match_index as int).failed,
                -1 <= g_pred < match_index,
                backtrace@[match_index as int] as int == g_pred,
                spec_improve(
                    spec_anchors,
                    i as int,
                    j as int,
                    cand_score as int,
                    g_pred,
                    pp as int,
                ) == spec_improve(spec_anchors, i as int, j as int, 1, -1, 0),
                forall|n: int|
                    0 <= n < p_alignment@.len() ==> 0 <= (#[trigger] p_alignment@[n]).score
                        <= SCORE_CAP,
                forall|n: int|
                    0 <= n < p_alignment@.len() ==> (#[trigger] p_alignment@[n]).score <= pow2(
                        match_index as int,
                    ),
                // backtrace entries stay well-formed; only this match's entry
                // may have changed
                forall|mm: int|
                    0 <= mm < m_total && mm != match_index ==> backtrace@[mm] == pre_backtrace[mm],
                forall|mm: int|
                    0 <= mm < m_total ==> backtrace@[mm] == -1i64 || (0 <= #[trigger] backtrace@[mm]
                        < mm && (km[backtrace@[mm] as int]).0 < (km[mm]).0 && (
                    km[backtrace@[mm] as int]).1 < (km[mm]).1),
            decreases SCORE_CAP - cand_score, p_alignment@.len() - pp,
        {
            let p_i = p_alignment[pp].index.0;
            let p_j = p_alignment[pp].index.1;
            proof {
                assert(spec_anchors[pp as int] == (ChainAnchor {
                    pair: p_alignment@[pp as int].index,
                    match_index: p_alignment@[pp as int].match_index as int,
                    score: p_alignment@[pp as int].score as int,
                }));
            }
            if i <= p_i || j <= p_j {
                proof {
                    assert(spec_improve(
                        spec_anchors,
                        i as int,
                        j as int,
                        cand_score as int,
                        g_pred,
                        pp as int,
                    ) == spec_improve(
                        spec_anchors,
                        i as int,
                        j as int,
                        cand_score as int,
                        g_pred,
                        pp + 1,
                    ));
                }
                pp = pp + 1;
            } else {
                let i_val = i - p_i;
                let j_val = j - p_j;
                let extension = p_alignment[pp].score - distance_function(i_val, j_val);
                proof {
                    assert(extension as int == spec_anchors[pp as int].score
                        - spec_distance_function(
                        i as int - spec_anchors[pp as int].pair.0 as int,
                        j as int - spec_anchors[pp as int].pair.1 as int,
                    ));
                }
                if extension >= cand_score {
                    let new_score = extension + cand_score;
                    if new_score > SCORE_CAP {
                        proof {
                            assert(spec_improve(
                                spec_anchors,
                                i as int,
                                j as int,
                                cand_score as int,
                                g_pred,
                                pp as int,
                            ).2);
                            assert(spec_improve(spec_anchors, i as int, j as int, 1, -1, 0).2);
                            assert(spec_chain(km, match_index as int + 1).failed);
                            lemma_failed_sticky(km, match_index as int + 1, m_total as int);
                            // a score can only outgrow the cap after sixty
                            // doublings, which takes at least sixty-one matches
                            if match_index as int + 1 <= 60 {
                                lemma_pow2_mono(match_index as int + 1, 60);
                                lemma_pow2_cap();
                                assert(new_score <= 2 * extension);
                                assert(new_score <= pow2(match_index as int + 1));
                                assert(false);
                            }
                        }
                        return Err(DistanceError::ScoreLimitExceeded);
                    }
                    proof {
                        assert(new_score <= 2 * extension);
                        assert(extension <= pow2(match_index as int));
                        assert(new_score <= pow2(match_index as int + 1));
                        // the adopted predecessor cannot be the origin
                        assert(p_alignment@[pp as int].score >= 1);
                        if pp as int == p_alignment@.len() - 1 {
                            assert(false);
                        }
                        assert(0 <= p_alignment@[pp as int].match_index < match_index);
                    }
                    proof {
                        assert(spec_improve(
                            spec_anchors,
                            i as int,
                            j as int,
                            cand_score as int,
                            g_pred,
                            pp as int,
                        ) == spec_improve(
                            spec_anchors,
                            i as int,
                            j as int,
                            new_score as int,
                            spec_anchors[pp as int].match_index,
                            0,
                        ));
                    }
                    cand_score = new_score;
                    let pred = p_alignment[pp].match_index;
                    backtrace[match_index] = pred;
                    proof {
                        assert(km[pred as int] == p_alignment@[pp as int].index);
                        assert((km[pred as int]).0 < (km[match_index as int]).0);
                        assert((km[pred as int]).1 < (km[match_index as int]).1);
                        g_pred = pred as int;
                        assert(view_backtrace(backtrace@)[match_index as int] == g_pred);
                    }
                    pp = 0;
                } else {
                    proof {
                        assert(spec_improve(
                            spec_anchors,
                            i as int,
                            j as int,
                            cand_score as int,
                            g_pred,
                            pp as int,
                        ) == spec_improve(
                            spec_anchors,
                            i as int,
                            j as int,
                            cand_score as int,
                            g_pred,
                            pp + 1,
                        ));
                    }
                    pp = pp + 1;
                }
            }
        }
        proof {
            // the scan ran off the list, so the specification's scan result
            // is exactly the finished candidate
            assert(spec_improve(spec_anchors, i as int, j as int, 1, -1, 0) == (
                cand_score as int,
                g_pred,
                false,
            ));
        }
        // insert the finished candidate before the first anchor with a
        // strictly smaller score, keeping the list ordered by descending
        // score and leaving equal scores in insertion order
        let mut pos: usize = 0;
        while pos < p_alignment.len()
            invariant_except_break
                0 <= pos <= p_alignment@.len(),
                p_alignment@ == pre_anchors,
                spec_anchors == view_anchors(pre_anchors),
                forall|n: int| 0 <= n < pos ==> (#[trigger] p_alignment@[n]).score >= cand_score,
                spec_insert_pos(spec_anchors, cand_score as int, pos as int) == spec_insert_pos(
                    spec_anchors,
                    cand_score as int,
                    0,
                ),
            ensures
                0 <= pos <= p_alignment@.len(),
                p_alignment@ == pre_anchors,
                forall|n: int| 0 <= n < pos ==> (#[trigger] p_alignment@[n]).score >= cand_score,
                pos < p_alignment@.len() ==> p_alignment@[pos as int].score < cand_score,
                spec_insert_pos(spec_anchors, cand_score as int, pos as int) == spec_insert_pos(
                    spec_anchors,
                    cand_score as int,
                    0,
                ),
            decreases p_alignment@.len() - pos,
        {
            proof {
                assert(spec_anchors[pos as int].score == p_alignment@[pos as int].score as int);
            }
            if p_alignment[pos].score < cand_score {
                break ;
            }
            pos = pos + 1;
        }
        proof {
            // the origin's score of zero is below every candidate, so the
            // scan stops before the end
            assert(p_alignment@[p_alignment@.len() - 1].score == 0);
            assert(pos < p_alignment@.len());
            assert(spec_anchors[pos as int].score == p_alignment@[pos as int].score as int);
            assert(spec_insert_pos(spec_anchors, cand_score as int, 0) == pos as int);
        }
        p_alignment.insert(
            pos,
            MatchState { index: (i, j), match_index: match_index as i64, score: cand_score },
        );
        proof {
            // the new anchor list and backtrace are the specification's next
            // state
            let ghost ca = ChainAnchor {
                pair: (i, j),
                match_index: match_index as int,
                score: cand_score as int,
            };
            pre_anchors.insert_ensures(
                pos as int,
                MatchState { index: (i, j), match_index: match_index as i64, score: cand_score },
            );
            spec_anchors.insert_ensures(pos as int, ca);
            assert(view_anchors(p_alignment@) =~= spec_anchors.insert(pos as int, ca));
            assert(view_backtrace(backtrace@) =~= spec_chain(
                km,
                match_index as int,
            ).backtrace.update(match_index as int, g_pred));
            assert(spec_chain(km, match_index as int + 1).anchors =~= view_anchors(p_alignment@));
            assert(spec_chain(km, match_index as int + 1).backtrace =~= view_backtrace(backtrace@));
            assert(!spec_chain(km, match_index as int + 1).failed);
        }
        proof {
            assert forall|mm: int| 0 <= mm < match_index + 1 implies #[trigger] has_anchor(
                p_alignment@,
                mm,
            ) by {
                if mm < match_index {
                    assert(has_anchor(pre_anchors, mm));
                    let n0 = choose|n0: int|
                        0 <= n0 < pre_anchors.len() && (#[trigger] pre_anchors[n0]).match_index
                            == mm as i64;
                    if n0 < pos {
                        assert(p_alignment@[n0].match_index == mm as i64);
                    } else {
                        assert(p_alignment@[n0 + 1].match_index == mm as i64);
                    }
                } else {
                    assert(p_alignment@[pos as int].match_index == mm as i64);
                }
            }
            lemma_pow2_mono(match_index as int + 1, match_index as int + 2);
        }
        proof {
            assert forall|mm: int|
                match_index + 1 <= mm < m_total implies backtrace@[mm] == -1i64 by {
                assert(backtrace@[mm] == pre_backtrace[mm]);
            }
        }
        match_index = match_index + 1;
    }

    // read the path off the best anchor, following predecessor links
    if m_total == 0 {
        let path: Vec<(usize, usize)> = Vec::new();
        proof {
            assert(path@ =~= spec_p_alignment(km));
        }
        return Ok(path);
    }
    let ghost sta = spec_chain(km, m_total as int).anchors;
    let ghost stb = spec_chain(km, m_total as int).backtrace;
    let mut pairs_rev: Vec<(usize, usize)> = Vec::new();
    let mut cur: usize = 0;
    proof {
        assert(p_alignment@.len() >= 2);
        assert(p_alignment@[0].score >= p_alignment@[p_alignment@.len() - 2].score);
        assert(0 <= p_alignment@[0].match_index < m_total);
    }
    loop
        invariant_except_break
            km == kmer_matches@,
            m_total == km.len(),
            m_total >= 1,
            sta == spec_chain(km, m_total as int).anchors,
            stb == spec_chain(km, m_total as int).backtrace,
            sta == view_anchors(p_alignment@),
            stb == view_backtrace(backtrace@),
            !spec_chain(km, m_total as int).failed,
            spec_walk(sta, stb, km, 0) == pairs_rev@ + spec_walk(sta, stb, km, cur as int),
            backtrace@.len() == m_total,
            p_alignment@.len() == m_total + 1,
            forall|n: int|
                0 <= n < p_alignment@.len() - 1 ==> 0 <= (#[trigger] p_alignment@[n]).match_index
                    < m_total && km[p_alignment@[n].match_index as int] == p_alignment@[n].index,
            forall|mm: int| 0 <= mm < m_total ==> #[trigger] has_anchor(p_alignment@, mm),
            forall|mm: int|
                0 <= mm < m_total ==> backtrace@[mm] == -1i64 || (0 <= #[trigger] backtrace@[mm]
                    < mm && (km[backtrace@[mm] as int]).0 < (km[mm]).0 && (
                km[backtrace@[mm] as int]).1 < (km[mm]).1),
            p_alignment@[p_alignment@.len() - 1].match_index == -1i64,
            p_alignment@[p_alignment@.len() - 1].index == (0usize, 0usize),
            0 <= cur < p_alignment@.len() - 1,
            // the pairs gathered so far strictly decrease, and the current
            // anchor lies strictly below the last of them
            forall|n: int, m: int|
                0 <= n < m < pairs_rev@.len() ==> (#[trigger] pairs_rev@[n]).0 > (
                #[trigger] pairs_rev@[m]).0 && pairs_rev@[n].1 > pairs_rev@[m].1,
            forall|n: int|
                0 <= n < pairs_rev@.len() ==> km.contains(#[trigger] pairs_rev@[n]),
            forall|n: int|
                0 <= n < pairs_rev@.len() ==> (#[trigger] pairs_rev@[n]).0
                    > p_alignment@[cur as int].index.0 && pairs_rev@[n].1
                    > p_alignment@[cur as int].index.1,
        ensures
            forall|n: int, m: int|
                0 <= n < m < pairs_rev@.len() ==> (#[trigger] pairs_rev@[n]).0 > (
                #[trigger] pairs_rev@[m]).0 && pairs_rev@[n].1 > pairs_rev@[m].1,
            forall|n: int|
                0 <= n < pairs_rev@.len() ==> km.contains(#[trigger] pairs_rev@[n]),
            pairs_rev@.len() >= 1,
            pairs_rev@ == spec_walk(sta, stb, km, 0),
        decreases p_alignment@[cur as int].index.0 + 1,
    {
        let anchor_i = p_alignment[cur].index.0;
        let anchor_j = p_alignment[cur].index.1;
        let ghost mi = p_alignment@[cur as int].match_index as int;
        proof {
            assert(km.contains(km[mi]));
        }
        pairs_rev.push((anchor_i, anchor_j));
        let anchor_mi = p_alignment[cur].match_index;
        let pred = backtrace[anchor_mi as usize];
        proof {
            assert(sta[cur as int].pair == (anchor_i, anchor_j));
            assert(sta[cur as int].match_index == anchor_mi as int);
            assert(stb[anchor_mi as int] == pred as int);
        }
        if pred < 0 {
            proof {
                assert(spec_walk(sta, stb, km, cur as int) =~= seq![(anchor_i, anchor_j)]);
                assert(pairs_rev@ =~= spec_walk(sta, stb, km, 0));
            }
            break ;
        }
        let target = kmer_matches[pred as usize];
        // the predecessor's own anchor exists, so this search succeeds
        let mut t2: usize = 0;
        let mut found: bool = false;
        let mut found_at: usize = 0;
        while t2 < p_alignment.len()
            invariant
                0 <= t2 <= p_alignment@.len(),
                sta == view_anchors(p_alignment@),
                found ==> spec_find_pair(sta, target, 0) == found_at as int,
                !found ==> spec_find_pair(sta, target, t2 as int) == spec_find_pair(
                    sta,
                    target,
                    0,
                ),
                found ==> 0 <= found_at < p_alignment@.len() && p_alignment@[found_at as int].index
                    == target,
                found ==> forall|n: int|
                    0 <= n < found_at ==> (#[trigger] p_alignment@[n]).index != target,
                !found ==> forall|n: int|
                    0 <= n < t2 ==> (#[trigger] p_alignment@[n]).index != target,
            decreases p_alignment@.len() - t2 + (if found {
                0int
            } else {
                1int
            }),
        {
            proof {
                assert(sta[t2 as int].pair == p_alignment@[t2 as int].index);
            }
            if !found && p_alignment[t2].index.0 == target.0 && p_alignment[t2].index.1
                == target.1 {
                found = true;
                found_at = t2;
            }
            t2 = t2 + 1;
        }
        proof {
            assert(has_anchor(p_alignment@, pred as int));
            let n_pred = choose|n: int|
                0 <= n < p_alignment@.len() && (#[trigger] p_alignment@[n]).match_index
                    == pred as i64;
            assert(p_alignment@[n_pred].index == target);
            // the predecessor's anchor is not the origin, and the search
            // finds the first anchor with this pair, so it stops before the
            // origin
            assert(n_pred < p_alignment@.len() - 1);
            assert(found);
            assert(found_at as int <= n_pred);
            assert(target.0 < anchor_i && target.1 < anchor_j);
            assert(p_alignment@[found_at as int].index == target);
            // the specification walk takes the same step
            assert(sta[found_at as int].pair == target);
            assert(spec_walk(sta, stb, km, cur as int) =~= seq![(anchor_i, anchor_j)] + spec_walk(
                sta,
                stb,
                km,
                found_at as int,
            ));
            assert(spec_walk(sta, stb, km, 0) =~= pairs_rev@ + spec_walk(
                sta,
                stb,
                km,
                found_at as int,
            ));
        }
        cur = found_at;
    }
    // the walk gathered the chain terminal-first; reverse it
    let mut path: Vec<(usize, usize)> = Vec::new();
    let mut back: usize = pairs_rev.len();
    while back > 0
        invariant
            0 <= back <= pairs_rev@.len(),
            path@.len() == pairs_rev@.len() - back,
            forall|n: int|
                0 <= n < path@.len() ==> path@[n] == pairs_rev@[pairs_rev@.len() - 1 - n],
            forall|n: int, m: int|
                0 <= n < m < pairs_rev@.len() ==> (#[trigger] pairs_rev@[n]).0 > (
                #[trigger] pairs_rev@[m]).0 && pairs_rev@[n].1 > pairs_rev@[m].1,
            forall|n: int| 0 <= n < pairs_rev@.len() ==> km.contains(#[trigger] pairs_rev@[n]),
        decreases back,
    {
        back = back - 1;
        let e = pairs_rev[back];
        path.push(e);
    }
    proof {
        assert forall|n: int, m: int| 0 <= n < m < path@.len() implies (#[trigger] path@[n]).0 < (
        #[trigger] path@[m]).0 && path@[n].1 < path@[m].1 by {
            assert(path@[n] == pairs_rev@[pairs_rev@.len() - 1 - n]);
            assert(path@[m] == pairs_rev@[pairs_rev@.len() - 1 - m]);
        }
        assert(path@ =~= pairs_rev@.reverse());
        assert(path@ == spec_p_alignment(km));
    }
    Ok(path)
}

/// The two sequences share the k-mer of size `k` that starts at offset
/// `p.0` in the first sequence and at offset `p.1` in the second.
pub open spec fn shared_kmer_at(a: Seq<u8>, b: Seq<u8>, k: int, p: (usize, usize)) -> bool {
    &&& 1 <= k <= a.len()
    &&& k <= b.len()
    &&& p.0 as int <= a.len() - k
    &&& p.1 as int <= b.len() - k
    &&& kmer_at(a, k, p.0 as int) == kmer_at(b, k, p.1 as int)
}

/// `ms` is the match list of the two sequences for size `k`: sorted,
/// duplicate-free, and holding exactly the shared k-mer occurrences. These
/// three conditions pin the sequence `ms` down uniquely.
pub open spec fn ktuple_matches_for(a: Seq<u8>, b: Seq<u8>, k: int, ms: Seq<(usize, usize)>) -> bool {
    &&& sorted_lex(ms)
    &&& ms.no_duplicates()
    &&& forall|p: (usize, usize)| #[trigger] ms.contains(p) <==> shared_kmer_at(a, b, k, p)
}

/// `d` is the k-tuple distance of the two sequences, witnessed by `ms`: the
/// uniquely determined match list, whose greedy chain path yields `d` by the
/// gap-aware scoring rule.
pub open spec fn ktuple_result_for(
    a: Seq<u8>,
    b: Seq<u8>,
    k: int,
    ms: Seq<(usize, usize)>,
    d: DistanceRatio,
) -> bool {
    &&& ktuple_matches_for(a, b, k, ms)
    &&& ({
        let align = spec_alignment_length(a.len() as int, b.len() as int, spec_p_alignment(ms));
        &&& d.denominator as int == (if align >= 1 {
            align
        } else {
            1
        })
        &&& d.numerator as int == d.denominator - spec_p_alignment(ms).len()
    })
}

/// The k-tuple engine succeeds on these sequences and this size with
/// distance `d`: the uniquely determined match list stays below the guard,
/// its greedy chain stays below the score cap, and scoring its path gives
/// `d`.
pub open spec fn ktuple_ok(a: Seq<u8>, b: Seq<u8>, k: int, d: DistanceRatio) -> bool {
    exists|ms: Seq<(usize, usize)>|
        #[trigger] ktuple_result_for(a, b, k, ms, d) && ms.len() < 0x4000_0000 && !spec_chain(
            ms,
            ms.len() as int,
        ).failed
}

/// The k-tuple engine refuses these sequences and this size: the uniquely
/// determined match list reaches the guard of `0x4000_0000` pairs, or its
/// greedy chain would outgrow `SCORE_CAP`.
pub open spec fn ktuple_err(a: Seq<u8>, b: Seq<u8>, k: int) -> bool {
    exists|ms: Seq<(usize, usize)>|
        #[trigger] ktuple_matches_for(a, b, k, ms) && (ms.len() >= 0x4000_0000 || spec_chain(
            ms,
            ms.len() as int,
        ).failed)
}

/// The k-tuple distance between two sequences: index the k-mers of each,
/// enumerate and sort the shared occurrences, chain them greedily, and score
/// the chained path's coverage of the implied alignment.
///
/// The distance is returned as an exact ratio in `[0, 1]`; zero means an
/// anchor-dense match, one means no shared structure at all. A k-mer size of
/// zero, or one exceeding either sequence's length, yields empty indexes and
/// so the full distance, not an error. `ScoreLimitExceeded` is reported only
/// when the match list holds at least `0x4000_0000` pairs or a chain score
/// would outgrow `SCORE_CAP`; no other input is refused.
pub fn ktuple_distance(
    first_sequence: &Vec<u8>,
    second_sequence: &Vec<u8>,
    kmer_size: usize,
) -> (r: Result<DistanceRatio, DistanceError>)
    requires
        first_sequence@.len() + second_sequence@.len() <= usize::MAX,
    ensures
        match r {
            Ok(d) => d.wf() && ktuple_ok(
                first_sequence@,
                second_sequence@,
                kmer_size as int,
                d,
            ),
            Err(e) => e == DistanceError::ScoreLimitExceeded && ktuple_err(
                first_sequence@,
                second_sequence@,
                kmer_size as int,
            ),
        },
        (kmer_size == 0 || kmer_size > first_sequence@.len() || kmer_size
            > second_sequence@.len()) ==> r == Ok::<DistanceRatio, DistanceError>(
            DistanceRatio {
                numerator: (if first_sequence@.len() >= second_sequence@.len() {
                    first_sequence@.len()
                } else {
                    second_sequence@.len()
                }) as usize,
                denominator: (if first_sequence@.len() >= second_sequence@.len() {
                    first_sequence@.len()
                } else {
                    second_sequence@.len()
                }) as usize,
            },
        ) || (first_sequence@.len() == 0 && second_sequence@.len() == 0 && r == Ok::<DistanceRatio, DistanceError>(
            DistanceRatio { numerator: 1, denominator: 1 },
        )),
{
    let first_kmers = parse_kmers(first_sequence, kmer_size);
    let second_kmers = parse_kmers(second_sequence, kmer_size);
    let matches = calculate_and_sort_matches(&first_kmers, &second_kmers);
    let ghost l1 = first_sequence@.len() as int;
    let ghost l2 = second_sequence@.len() as int;
    proof {
        if kmer_size == 0 || kmer_size > l1 || kmer_size > l2 {
            // the indexes are empty, so there are no matches
            assert(matches@.len() == 0) by {
                if matches@.len() > 0 {
                    let p = matches@[0];
                    assert(matches@.contains(p));
                    let key = choose|key: Seq<u8>|
                        #[trigger] first_kmers.contains_offset(key, p.0 as int)
                            && second_kmers.contains_offset(key, p.1 as int);
                }
            }
        }
    }
    proof {
        // the sorted match list is exactly the shared occurrences, and the
        // three conditions of the witness predicate determine it uniquely
        assert forall|p: (usize, usize)| #[trigger] matches@.contains(p) implies shared_kmer_at(
            first_sequence@,
            second_sequence@,
            kmer_size as int,
            p,
        ) by {
            let key = choose|key: Seq<u8>|
                #[trigger] first_kmers.contains_offset(key, p.0 as int)
                    && second_kmers.contains_offset(key, p.1 as int);
        }
        assert forall|p: (usize, usize)|
            shared_kmer_at(first_sequence@, second_sequence@, kmer_size as int, p) implies
            #[trigger] matches@.contains(p) by {
            let key = kmer_at(first_sequence@, kmer_size as int, p.0 as int);
            assert(first_kmers.contains_offset(key, p.0 as int));
            assert(second_kmers.contains_offset(key, p.1 as int));
            assert(indexes_match(first_kmers, second_kmers, p));
        }
        assert(ktuple_matches_for(first_sequence@, second_sequence@, kmer_size as int, matches@));
    }
    if matches.len() >= 0x4000_0000 {
        proof {
            assert(ktuple_err(first_sequence@, second_sequence@, kmer_size as int));
        }
        return Err(DistanceError::ScoreLimitExceeded);
    }
    proof {
        assert forall|n: int| 0 <= n < matches@.len() implies (#[trigger] matches@[n]).0 < l1
            && matches@[n].1 < l2 by {
            let p = matches@[n];
            assert(matches@.contains(p));
            let key = choose|key: Seq<u8>|
                #[trigger] first_kmers.contains_offset(key, p.0 as int)
                    && second_kmers.contains_offset(key, p.1 as int);
            assert(1 <= kmer_size <= l1 && 0 <= p.0 as int <= l1 - kmer_size);
            assert(0 <= p.1 as int <= l2 - kmer_size);
        }
    }
    let path = match find_p_alignment(&matches) {
        Ok(path) => path,
        Err(e) => {
            proof {
                assert(spec_chain(matches@, matches@.len() as int).failed);
                assert(ktuple_err(first_sequence@, second_sequence@, kmer_size as int));
            }
            return Err(e)
        },
    };
    proof {
        assert forall|n: int| 0 <= n < path@.len() implies (#[trigger] path@[n]).0 < l1
            && path@[n].1 < l2 by {
            let p = path@[n];
            assert(matches@.contains(p));
            let t = choose|t: int| 0 <= t < matches@.len() && matches@[t] == p;
        }
    }
    let distance = calculate_distances(first_sequence.len(), second_sequence.len(), &path);
    proof {
        if kmer_size == 0 || kmer_size > l1 || kmer_size > l2 {
            assert(path@.len() == 0);
            assert(gap_states(path@, 0) == GapState {
                total: 0int,
                first_index: 0int,
                first_gap: 0int,
                second_index: 0int,
                second_gap: 0int,
            });
        }
    }
    proof {
        // the sorted match list is the unique witness of the result
        assert(ktuple_result_for(
            first_sequence@,
            second_sequence@,
            kmer_size as int,
            matches@,
            distance,
        ));
        assert(matches@.len() < 0x4000_0000);
        assert(!spec_chain(matches@, matches@.len() as int).failed);
        assert(ktuple_ok(first_sequence@, second_sequence@, kmer_size as int, distance));
    }
    Ok(distance)
}

} // verus!
