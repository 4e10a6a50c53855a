//! Ordering the versions of a package from newest to oldest.
use vstd::prelude::*;
use vstd::utf8::encode_utf8;

verus! {

/// One version directory of a package: its name and its modification time,
/// in nanoseconds since the Unix epoch.
#[derive(Clone, Debug)]
pub struct VersionEntry {
    pub name: String,
    pub modified: u64,
}

impl VersionEntry {
    /// A copy of this entry.
    pub fn duplicate(&self) -> (r: VersionEntry)
        ensures
            r == *self,
    {
        VersionEntry { name: self.name.clone(), modified: self.modified }
    }
}

/// The UTF-8 bytes of a version's name.
pub open spec fn name_bytes(v: VersionEntry) -> Seq<u8> {
    encode_utf8(v.name@)
}

/// `x` comes strictly before `y` in lexicographic byte order, the order in
/// which Rust compares strings.
pub open spec fn bytes_less(x: Seq<u8>, y: Seq<u8>) -> bool
    decreases x.len(),
{
    if y.len() == 0 {
        false
    } else if x.len() == 0 {
        true
    } else if x[0] != y[0] {
        x[0] < y[0]
    } else {
        bytes_less(x.drop_first(), y.drop_first())
    }
}

/// The version at index `a` ranks before the one at index `b`: it was
/// modified later; or at the same instant, with a name that sorts first; or
/// with the same time and name, it is listed earlier.
pub open spec fn ranks_before(vs: Seq<VersionEntry>, a: int, b: int) -> bool {
    let x = vs[a];
    let y = vs[b];
    ||| x.modified > y.modified
    ||| x.modified == y.modified && bytes_less(name_bytes(x), name_bytes(y))
    ||| x.modified == y.modified && name_bytes(x) == name_bytes(y) && a < b
}

/// `r` lists every index of `vs` exactly once, in ranking order.
pub open spec fn is_ranking(vs: Seq<VersionEntry>, r: Seq<usize>) -> bool {
    &&& r.len() == vs.len()
    &&& r.no_duplicates()
    &&& forall|p: int| 0 <= p < r.len() ==> r[p] < vs.len()
    &&& forall|i: usize| i < vs.len() ==> #[trigger] r.contains(i)
    &&& forall|p: int, q: int|
        0 <= p < q < r.len() ==> ranks_before(vs, r[p] as int, r[q] as int)
}

/// How many of `n` versions are kept when the newest `k` are retained.
pub open spec fn kept_count(n: nat, k: nat) -> nat {
    if n < k {
        n
    } else {
        k
    }
}

/// How many of `n` versions are removed when the newest `k` are retained.
pub open spec fn removed_count(n: nat, k: nat) -> nat {
    (n - kept_count(n, k)) as nat
}

proof fn lemma_bytes_less_asymmetric(x: Seq<u8>, y: Seq<u8>)
    ensures
        !(bytes_less(x, y) && bytes_less(y, x)),
    decreases x.len(),
{
    if x.len() > 0 && y.len() > 0 && x[0] == y[0] {
        lemma_bytes_less_asymmetric(x.drop_first(), y.drop_first());
    }
}

proof fn lemma_bytes_less_total(x: Seq<u8>, y: Seq<u8>)
    ensures
        x == y || bytes_less(x, y) || bytes_less(y, x),
    decreases x.len(),
{
    if x.len() > 0 && y.len() > 0 && x[0] == y[0] {
        lemma_bytes_less_total(x.drop_first(), y.drop_first());
        if x.drop_first() == y.drop_first() {
            assert forall|j: int| 0 <= j < x.len() implies x[j] == y[j] by {
                if j > 0 {
                    assert(x[j] == x.drop_first()[j - 1]);
                    assert(y[j] == y.drop_first()[j - 1]);
                }
            }
            assert(x =~= y);
        }
    }
}

proof fn lemma_bytes_less_transitive(x: Seq<u8>, y: Seq<u8>, z: Seq<u8>)
    requires
        bytes_less(x, y),
        bytes_less(y, z),
    ensures
        bytes_less(x, z),
    decreases x.len(),
{
    if x.len() > 0 && x[0] == y[0] && y[0] == z[0] {
        lemma_bytes_less_transitive(x.drop_first(), y.drop_first(), z.drop_first());
    }
}

proof fn lemma_ranks_before_asymmetric(vs: Seq<VersionEntry>, a: int, b: int)
    ensures
        !(ranks_before(vs, a, b) && ranks_before(vs, b, a)),
{
    lemma_bytes_less_asymmetric(name_bytes(vs[a]), name_bytes(vs[b]));
}

proof fn lemma_ranks_before_total(vs: Seq<VersionEntry>, a: int, b: int)
    requires
        a != b,
    ensures
        ranks_before(vs, a, b) || ranks_before(vs, b, a),
{
    lemma_bytes_less_total(name_bytes(vs[a]), name_bytes(vs[b]));
}

proof fn lemma_ranks_before_transitive(vs: Seq<VersionEntry>, a: int, b: int, c: int)
    requires
        ranks_before(vs, a, b),
        ranks_before(vs, b, c),
    ensures
        ranks_before(vs, a, c),
{
    let (x, y, z) = (name_bytes(vs[a]), name_bytes(vs[b]), name_bytes(vs[c]));
    if vs[a].modified == vs[c].modified {
        if bytes_less(x, y) && bytes_less(y, z) {
            lemma_bytes_less_transitive(x, y, z);
        }
    }
}

proof fn lemma_rankings_agree_below(vs: Seq<VersionEntry>, r1: Seq<usize>, r2: Seq<usize>, n: int)
    requires
        is_ranking(vs, r1),
        is_ranking(vs, r2),
        0 <= n <= r1.len(),
    ensures
        forall|q: int| 0 <= q < n ==> r1[q] == r2[q],
    decreases n,
{
    if n > 0 {
        let m = n - 1;
        lemma_rankings_agree_below(vs, r1, r2, m);
        let x = r1[m];
        let y = r2[m];
        if x != y {
            assert(r2.contains(x));
            let q2 = choose|q: int| 0 <= q < r2.len() && r2[q] == x;
            assert(r1.contains(y));
            let q1 = choose|q: int| 0 <= q < r1.len() && r1[q] == y;
            if q2 < m {
                assert(r1[q2] == x);
            }
            if q1 < m {
                assert(r2[q1] == y);
            }
            assert(ranks_before(vs, y as int, x as int));
            assert(ranks_before(vs, x as int, y as int));
            lemma_ranks_before_asymmetric(vs, x as int, y as int);
        }
    }
}

/// The ranking of a package's versions is unique: any two orders that both
/// list every version once, in ranking order, are the same order.
pub proof fn lemma_ranking_unique(vs: Seq<VersionEntry>, r1: Seq<usize>, r2: Seq<usize>)
    requires
        is_ranking(vs, r1),
        is_ranking(vs, r2),
    ensures
        r1 == r2,
{
    lemma_rankings_agree_below(vs, r1, r2, r1.len() as int);
    assert(r1 =~= r2);
}

/// Of a ranking cut after its first `k` places, every version kept was
/// modified no earlier than any version cut off, and the two parts hold
/// `min(n, k)` and `n - min(n, k)` versions.
pub proof fn lemma_kept_are_newest(vs: Seq<VersionEntry>, r: Seq<usize>, k: nat)
    requires
        is_ranking(vs, r),
    ensures
        r.take(kept_count(vs.len(), k) as int).len() == kept_count(vs.len(), k),
        r.skip(kept_count(vs.len(), k) as int).len() == removed_count(vs.len(), k),
        kept_count(vs.len(), k) == if vs.len() < k {
            vs.len()
        } else {
            k
        },
        removed_count(vs.len(), k) == if vs.len() > k {
            (vs.len() - k) as nat
        } else {
            0
        },
        forall|p: int, q: int|
            0 <= p < kept_count(vs.len(), k) <= q < r.len() ==> vs[r[p] as int].modified >= vs[r[q] as int].modified,
{
    assert forall|p: int, q: int|
        0 <= p < kept_count(vs.len(), k) <= q < r.len() implies vs[r[p] as int].modified
        >= vs[r[q] as int].modified by {
        assert(ranks_before(vs, r[p] as int, r[q] as int));
    }
}

/// Whether `x` comes strictly before `y` in lexicographic byte order.
fn bytes_precede(x: &[u8], y: &[u8]) -> (r: bool)
    ensures
        r == bytes_less(x@, y@),
{
    let mut i: usize = 0;
    assert(x@.skip(0) =~= x@);
    assert(y@.skip(0) =~= y@);
    while i < x.len() && i < y.len() && x[i] == y[i]
        invariant
            i <= x@.len(),
            i <= y@.len(),
            bytes_less(x@, y@) == bytes_less(x@.skip(i as int), y@.skip(i as int)),
        decreases x@.len() - i,
    {
        assert(x@.skip(i as int).drop_first() =~= x@.skip(i + 1));
        assert(y@.skip(i as int).drop_first() =~= y@.skip(i + 1));
        i = i + 1;
    }
    if i == y.len() {
        false
    } else if i == x.len() {
        true
    } else {
        x[i] < y[i]
    }
}

/// Whether the version at index `a` of `versions` ranks before the one at `b`.
fn version_ranks_before(versions: &Vec<VersionEntry>, a: usize, b: usize) -> (r: bool)
    requires
        a < versions.len(),
        b < versions.len(),
    ensures
        r == ranks_before(versions@, a as int, b as int),
{
    let x = &versions[a];
    let y = &versions[b];
    if x.modified != y.modified {
        x.modified > y.modified
    } else {
        let xb = x.name.as_str().as_bytes();
        let yb = y.name.as_str().as_bytes();
        proof {
            lemma_bytes_less_total(xb@, yb@);
            lemma_bytes_less_asymmetric(xb@, yb@);
        }
        if bytes_precede(xb, yb) {
            true
        } else if bytes_precede(yb, xb) {
            false
        } else {
            a < b
        }
    }
}

/// Orders the indices of `versions` from the most recently modified to the
/// least. Versions modified at the same instant are ordered by name, in byte
/// order, and versions that share time and name by their place in the list.
pub fn rank_versions(versions: &Vec<VersionEntry>) -> (r: Vec<usize>)
    ensures
        is_ranking(versions@, r@),
{
    let n = versions.len();
    let ghost vs = versions@;
    let mut r: Vec<usize> = Vec::new();
    let mut i: usize = 0;
    while i < n
        invariant
            i <= n,
            n == versions.len(),
            vs == versions@,
            r.len() == i,
            r@.no_duplicates(),
            forall|p: int| 0 <= p < r.len() ==> r[p] < i,
            forall|k: usize| k < i ==> #[trigger] r@.contains(k),
            forall|p: int, q: int|
                0 <= p < q < r.len() ==> ranks_before(vs, r[p] as int, r[q] as int),
        decreases n - i,
    {
        let mut pos: usize = 0;
        while pos < r.len() && version_ranks_before(versions, r[pos], i)
            invariant
                pos <= r.len(),
                i < n,
                n == versions.len(),
                vs == versions@,
                r.len() == i,
                forall|p: int| 0 <= p < r.len() ==> r[p] < i,
                forall|p: int| 0 <= p < pos ==> ranks_before(vs, r[p] as int, i as int),
            decreases r.len() - pos,
        {
            pos = pos + 1;
        }
        let ghost old_r = r@;
        assert forall|p: int| pos <= p < old_r.len() implies ranks_before(
            vs,
            i as int,
            old_r[p] as int,
        ) by {
            lemma_ranks_before_total(vs, i as int, old_r[pos as int] as int);
            if p > pos {
                assert(ranks_before(vs, old_r[pos as int] as int, old_r[p] as int));
                lemma_ranks_before_transitive(
                    vs,
                    i as int,
                    old_r[pos as int] as int,
                    old_r[p] as int,
                );
            }
        }
        r.insert(pos, i);
        assert forall|k: usize| k < i + 1 implies #[trigger] r@.contains(k) by {
            if k == i {
                assert(r@[pos as int] == k);
            } else {
                assert(old_r.contains(k));
                let p = choose|p: int| 0 <= p < old_r.len() && old_r[p] == k;
                if p < pos {
                    assert(r@[p] == k);
                } else {
                    assert(r@[p + 1] == k);
                }
            }
        }
        assert forall|p: int, q: int| 0 <= p < q < r.len() implies r@[p] != r@[q] by {
            if p < pos && q > pos {
                assert(old_r[p] != old_r[q - 1]);
            } else if p > pos {
                assert(old_r[p - 1] != old_r[q - 1]);
            } else if q < pos {
                assert(old_r[p] != old_r[q]);
            }
        }
        assert forall|p: int, q: int| 0 <= p < q < r.len() implies ranks_before(
            vs,
            r@[p] as int,
            r@[q] as int,
        ) by {
            if p < pos && q > pos {
                assert(ranks_before(vs, old_r[p] as int, old_r[q - 1] as int));
            } else if p > pos {
                assert(ranks_before(vs, old_r[p - 1] as int, old_r[q - 1] as int));
            } else if q < pos {
                assert(ranks_before(vs, old_r[p] as int, old_r[q] as int));
            }
        }
        i = i + 1;
    }
    r
}

} // verus!
