use vstd::prelude::*;

verus! {

/// What `seqdiff::diff(a, b).0` returns: for each item of `a`, the index of the
/// item of `b` that it is aligned with, if any.
pub uninterp spec fn diff_alignment(a: Seq<char>, b: Seq<char>) -> Seq<Option<usize>>;

/// Calls `seqdiff::diff` and keeps its first vector. As its documentation and
/// source show, that vector has one entry per item of `a`; an entry
/// `Some(j)` pairs `a[i]` with an equal `b[j]`; the pairs never cross; and
/// two equal sequences are aligned item by item. That the alignment is a
/// longest one (Myers' algorithm) is not restated: the result is named.
#[verifier::external_body]
fn diff_chars(a: &[char], b: &[char]) -> (r: Vec<Option<usize>>)
    ensures
        r@ == diff_alignment(a@, b@),
        r@.len() == a@.len(),
        forall|i: int|
            0 <= i < r@.len() && (#[trigger] r@[i]) is Some ==> r@[i]->0 < b@.len() && a@[i]
                == b@[r@[i]->0 as int],
        forall|i: int, j: int|
            0 <= i < j < r@.len() && (#[trigger] r@[i]) is Some && (#[trigger] r@[j]) is Some
                ==> r@[i]->0 < r@[j]->0,
        a@ == b@ ==> forall|i: int| 0 <= i < r@.len() ==> (#[trigger] r@[i]) == Some(i as usize),
{
    seqdiff::diff(a, b).0
}

/// The number of aligned entries in an alignment.
pub open spec fn count_aligned(d: Seq<Option<usize>>) -> nat
    decreases d.len(),
{
    if d.len() == 0 {
        0
    } else {
        count_aligned(d.drop_last()) + if d.last() is Some {
            1nat
        } else {
            0nat
        }
    }
}

/// How alike two character sequences are: `matched` items of the first are
/// aligned with items of the second by `seqdiff::diff`, out of `total` items
/// in both. As a percentage it is `100 * num / den` (see `Similarity::num`):
/// twice the aligned items over all items, or one hundred percent for two
/// empty sequences. `seqdiff::ratio` uses the same formula but counts the
/// unaligned items by an edit distance of its own; that the two counts agree
/// rests on that algorithm and is not stated here.
#[derive(Clone, Copy, Debug, PartialEq, Eq)]
pub struct Similarity {
    pub matched: usize,
    pub total: u128,
}

impl Similarity {
    /// Numerator of the similarity as a fraction of one.
    pub open spec fn num(self) -> int {
        if self.total == 0 {
            1
        } else {
            2 * self.matched
        }
    }

    /// Denominator of the similarity as a fraction of one.
    pub open spec fn den(self) -> int {
        if self.total == 0 {
            1
        } else {
            self.total as int
        }
    }

    /// The similarity is a fraction between zero and one.
    pub open spec fn wf(self) -> bool {
        &&& 0 <= self.num() <= self.den()
        &&& self.total <= 2 * (usize::MAX as int)
    }

    /// The similarity is at least `p` percent.
    pub open spec fn at_least(self, p: int) -> bool {
        100 * self.num() >= p * self.den()
    }

    /// The similarity exceeds `p` percent.
    pub open spec fn above(self, p: int) -> bool {
        100 * self.num() > p * self.den()
    }

    /// The similarity is strictly smaller than `other`.
    pub open spec fn less_than(self, other: Similarity) -> bool {
        self.num() * other.den() < other.num() * self.den()
    }

    /// The similarity is the full one hundred percent.
    pub open spec fn is_full(self) -> bool {
        self.num() == self.den()
    }
}

/// The similarity of `a` and `b` as `seqdiff` measures it.
pub open spec fn similarity_spec(a: Seq<char>, b: Seq<char>) -> Similarity {
    Similarity {
        matched: count_aligned(diff_alignment(a, b)) as usize,
        total: (a.len() + b.len()) as u128,
    }
}

/// The full similarity of a sequence with itself.
pub open spec fn full_similarity(n: nat) -> Similarity {
    Similarity { matched: n as usize, total: (2 * n) as u128 }
}

proof fn lemma_count_aligned_bound(d: Seq<Option<usize>>)
    ensures
        count_aligned(d) <= d.len(),
    decreases d.len(),
{
    if d.len() > 0 {
        lemma_count_aligned_bound(d.drop_last());
    }
}

/// A strictly increasing map from `0..n` into `0..n` is the identity.
proof fn lemma_increasing_identity(d: Seq<Option<usize>>, n: int)
    requires
        d.len() == n,
        forall|i: int| 0 <= i < n ==> (#[trigger] d[i]) is Some && d[i]->0 < n,
        forall|i: int, j: int|
            0 <= i < j < n && (#[trigger] d[i]) is Some && (#[trigger] d[j]) is Some ==> d[i]->0
                < d[j]->0,
    ensures
        forall|i: int| 0 <= i < n ==> (#[trigger] d[i]) == Some(i as usize),
{
    assert forall|i: int| 0 <= i < n implies (#[trigger] d[i]) == Some(i as usize) by {
        lemma_increasing_at_least(d, n, i);
        lemma_increasing_at_most(d, n, i);
    }
}

proof fn lemma_increasing_at_least(d: Seq<Option<usize>>, n: int, i: int)
    requires
        d.len() == n,
        0 <= i < n,
        forall|k: int| 0 <= k < n ==> (#[trigger] d[k]) is Some && d[k]->0 < n,
        forall|k: int, j: int|
            0 <= k < j < n && (#[trigger] d[k]) is Some && (#[trigger] d[j]) is Some ==> d[k]->0
                < d[j]->0,
    ensures
        d[i]->0 >= i,
    decreases i,
{
    if i > 0 {
        lemma_increasing_at_least(d, n, i - 1);
        assert(d[i - 1] is Some && d[i] is Some);
    }
}

proof fn lemma_increasing_at_most(d: Seq<Option<usize>>, n: int, i: int)
    requires
        d.len() == n,
        0 <= i < n,
        forall|k: int| 0 <= k < n ==> (#[trigger] d[k]) is Some && d[k]->0 < n,
        forall|k: int, j: int|
            0 <= k < j < n && (#[trigger] d[k]) is Some && (#[trigger] d[j]) is Some ==> d[k]->0
                < d[j]->0,
    ensures
        d[i]->0 <= i,
    decreases n - i,
{
    if i < n - 1 {
        lemma_increasing_at_most(d, n, i + 1);
        assert(d[i] is Some && d[i + 1] is Some);
    }
}

/// Measures how alike `a` and `b` are, by `seqdiff`'s alignment.
pub fn similarity(a: &[char], b: &[char]) -> (s: Similarity)
    ensures
        s == similarity_spec(a@, b@),
        s.wf(),
        s.is_full() <==> a@ == b@,
{
    let d = diff_chars(a, b);
    let mut matched: usize = 0;
    let ghost mut last: int = -1;
    for i in 0..d.len()
        invariant
            d@.len() == a@.len(),
            d@ == diff_alignment(a@, b@),
            matched == count_aligned(d@.take(i as int)),
            matched <= i,
            matched <= last + 1,
            last < b@.len(),
            forall|k: int| i <= k < d@.len() && (#[trigger] d@[k]) is Some ==> d@[k]->0 > last,
            forall|i: int|
                0 <= i < d@.len() && (#[trigger] d@[i]) is Some ==> d@[i]->0 < b@.len() && a@[i]
                    == b@[d@[i]->0 as int],
            forall|i: int, j: int|
                0 <= i < j < d@.len() && (#[trigger] d@[i]) is Some && (#[trigger] d@[j]) is Some
                    ==> d@[i]->0 < d@[j]->0,
    {
        assert(d@.take(i + 1).drop_last() =~= d@.take(i as int));
        assert(d@.take(i + 1).last() == d@[i as int]);
        if d[i].is_some() {
            proof {
                assert forall|k: int| i + 1 <= k < d@.len() && (#[trigger] d@[k]) is Some implies d@[k]->0
                    > d@[i as int]->0 by {
                    assert(d@[i as int] is Some);
                }
                last = d@[i as int]->0 as int;
            }
            matched = matched + 1;
        }
    }
    assert(d@.take(d@.len() as int) =~= d@);
    let total: u128 = a.len() as u128 + b.len() as u128;
    let s = Similarity { matched, total };
    proof {
        if s.is_full() && total > 0 {
            assert(matched == a@.len() && matched == b@.len());
            lemma_all_aligned(d@);
            lemma_increasing_identity(d@, a@.len() as int);
            assert forall|i: int| 0 <= i < a@.len() implies a@[i] == b@[i] by {
                assert(d@[i] == Some(i as usize));
            }
            assert(a@ =~= b@);
        }
        if total == 0 {
            assert(a@ =~= b@);
        }
        if a@ == b@ && total > 0 {
            lemma_count_all(d@);
        }
    }
    s
}

/// When every entry counts, every entry is aligned.
proof fn lemma_all_aligned(d: Seq<Option<usize>>)
    requires
        count_aligned(d) == d.len(),
    ensures
        forall|i: int| 0 <= i < d.len() ==> (#[trigger] d[i]) is Some,
    decreases d.len(),
{
    if d.len() > 0 {
        lemma_count_aligned_bound(d.drop_last());
        lemma_all_aligned(d.drop_last());
        assert forall|i: int| 0 <= i < d.len() implies (#[trigger] d[i]) is Some by {
            if i < d.len() - 1 {
                assert(d.drop_last()[i] == d[i]);
            }
        }
    }
}

/// An alignment whose entries are all aligned counts all of them.
proof fn lemma_count_all(d: Seq<Option<usize>>)
    requires
        forall|i: int| 0 <= i < d.len() ==> (#[trigger] d[i]) is Some,
    ensures
        count_aligned(d) == d.len(),
    decreases d.len(),
{
    if d.len() > 0 {
        assert forall|i: int| 0 <= i < d.len() - 1 implies (#[trigger] d.drop_last()[i]) is Some by {
            assert(d.drop_last()[i] == d[i]);
        }
        lemma_count_all(d.drop_last());
    }
}


proof fn lemma_fraction_parts(a: int, b: int, c: int, d: int, q1: int, r1: int, q2: int, r2: int)
    by (nonlinear_arith)
    requires
        b > 0,
        d > 0,
        a == b * q1 + r1,
        c == d * q2 + r2,
        0 <= r1 < b,
        0 <= r2 < d,
        q1 >= 0,
        q2 >= 0,
    ensures
        q1 < q2 ==> a * d < c * b,
        q1 > q2 ==> c * b < a * d,
        q1 == q2 ==> (a * d < c * b <==> r1 * d < r2 * b),
{
    if q1 < q2 {
        assert(a * d == q1 * b * d + r1 * d);
        assert(r1 * d < b * d);
        assert((q1 + 1) * b * d <= q2 * b * d);
        assert(c * b == q2 * d * b + r2 * b);
    } else if q1 > q2 {
        assert(c * b == q2 * d * b + r2 * b);
        assert(r2 * b < d * b);
        assert((q2 + 1) * d * b <= q1 * d * b);
        assert(a * d == q1 * b * d + r1 * d);
    } else {
        assert(a * d == q1 * b * d + r1 * d);
        assert(c * b == q2 * d * b + r2 * b);
    }
}

/// Whether `a / b < c / d`, decided without overflow by comparing whole
/// parts and then the reciprocals of the remainders.
pub fn fraction_less(a: u128, b: u128, c: u128, d: u128) -> (r: bool)
    requires
        b > 0,
        d > 0,
    ensures
        r == (a * d < c * b),
    decreases b + d,
{
    let q1 = a / b;
    let r1 = a % b;
    let q2 = c / d;
    let r2 = c % d;
    proof {
        vstd::arithmetic::div_mod::lemma_fundamental_div_mod(a as int, b as int);
        vstd::arithmetic::div_mod::lemma_fundamental_div_mod(c as int, d as int);
        vstd::arithmetic::div_mod::lemma_mod_pos_bound(a as int, b as int);
        vstd::arithmetic::div_mod::lemma_mod_pos_bound(c as int, d as int);
        vstd::arithmetic::div_mod::lemma_div_pos_is_pos(a as int, b as int);
        vstd::arithmetic::div_mod::lemma_div_pos_is_pos(c as int, d as int);
        lemma_fraction_parts(a as int, b as int, c as int, d as int, q1 as int, r1 as int, q2 as int, r2 as int);
    }
    if q1 != q2 {
        assert(q1 < q2 ==> a * d < c * b);
        assert(q1 > q2 ==> c * b < a * d);
        q1 < q2
    } else if r2 == 0 {
        assert(r1 * d >= 0 && r2 * b == 0) by (nonlinear_arith)
            requires
                r1 >= 0,
                d > 0,
                r2 == 0,
        ;
        false
    } else if r1 == 0 {
        assert(r2 * b > 0) by (nonlinear_arith)
            requires
                r2 > 0,
                b > 0,
        ;
        assert(r1 * d == 0) by (nonlinear_arith)
            requires
                r1 == 0,
        ;
        true
    } else {
        let r = fraction_less(d, r2, b, r1);
        assert(d * r1 == r1 * d && b * r2 == r2 * b) by (nonlinear_arith);
        r
    }
}

/// Numerator of a similarity, as `Similarity::num`.
fn similarity_num(s: Similarity) -> (r: u128)
    ensures
        r == s.num(),
{
    if s.total == 0 {
        1
    } else {
        2 * (s.matched as u128)
    }
}

/// Denominator of a similarity, as `Similarity::den`.
fn similarity_den(s: Similarity) -> (r: u128)
    ensures
        r == s.den(),
        r > 0,
{
    if s.total == 0 {
        1
    } else {
        s.total
    }
}

/// Whether the similarity is at least `p` percent.
pub fn similarity_at_least(s: Similarity, p: u128) -> (r: bool)
    requires
        s.wf(),
        p <= 100,
    ensures
        r == s.at_least(p as int),
{
    let n = similarity_num(s);
    let d = similarity_den(s);
    assert(p * d <= 100 * d && 100 * d <= 200 * (usize::MAX as int)) by (nonlinear_arith)
        requires
            p <= 100,
            d > 0,
            d <= 2 * (usize::MAX as int),
    ;
    100 * n >= p * d
}

/// Whether the similarity exceeds `p` percent.
pub fn similarity_above(s: Similarity, p: u128) -> (r: bool)
    requires
        s.wf(),
        p <= 100,
    ensures
        r == s.above(p as int),
{
    let n = similarity_num(s);
    let d = similarity_den(s);
    assert(p * d <= 100 * d && 100 * d <= 200 * (usize::MAX as int)) by (nonlinear_arith)
        requires
            p <= 100,
            d > 0,
            d <= 2 * (usize::MAX as int),
    ;
    100 * n > p * d
}

/// Whether similarity `s` is strictly smaller than similarity `t`.
pub fn similarity_less(s: Similarity, t: Similarity) -> (r: bool)
    ensures
        r == s.less_than(t),
{
    fraction_less(similarity_num(s), similarity_den(s), similarity_num(t), similarity_den(t))
}

} // verus!
