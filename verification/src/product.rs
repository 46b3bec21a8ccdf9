//! Cartesian products of sequences, produced one combination at a time.
//!
//! The iterator works like an odometer: the last sequence ticks fastest, and
//! when it wraps around the one before it ticks once. When the first sequence
//! wraps around the iteration ends.

use vstd::prelude::*;
use vstd::arithmetic::div_mod::lemma_fundamental_div_mod_converse;

verus! {

/// All tuples that take their `j`-th element from `s[j]`, in lexicographic
/// order of positions (the last sequence varies fastest). The product of no
/// sequences is the single empty tuple.
pub open spec fn tuples<V>(s: Seq<Seq<V>>) -> Seq<Seq<V>>
    decreases s.len(),
{
    if s.len() == 0 {
        seq![Seq::empty()]
    } else {
        let prev = tuples(s.drop_last());
        let last = s.last();
        Seq::new(
            prev.len() * last.len(),
            |k: int| prev[k / (last.len() as int)].push(last[k % (last.len() as int)]),
        )
    }
}

/// What a [`ProductIterator`] over the sequences `s` yields: the tuples of
/// [`tuples`], except that no sequences at all yield nothing.
pub open spec fn product_seq<V>(s: Seq<Seq<V>>) -> Seq<Seq<V>> {
    if s.len() == 0 {
        Seq::empty()
    } else {
        tuples(s)
    }
}

/// The product of the lengths of the sequences.
pub open spec fn lengths_product<V>(s: Seq<Seq<V>>) -> nat
    decreases s.len(),
{
    if s.len() == 0 {
        1
    } else {
        lengths_product(s.drop_last()) * s.last().len()
    }
}

/// Whether `d` picks a position in each of the sequences.
pub open spec fn digits_valid<V>(d: Seq<usize>, s: Seq<Seq<V>>) -> bool {
    &&& d.len() == s.len()
    &&& forall|j: int| 0 <= j < d.len() ==> d[j] < #[trigger] s[j].len() && s[j].len() <= usize::MAX
}

/// The rank of the positions `d` in the mixed-radix order of [`tuples`].
pub open spec fn digits_index<V>(d: Seq<usize>, s: Seq<Seq<V>>) -> int
    decreases d.len(),
{
    if d.len() == 0 || s.len() == 0 {
        0
    } else {
        digits_index(d.drop_last(), s.drop_last()) * (s.last().len() as int) + d.last()
    }
}

/// The tuple picked by the positions `d`.
pub open spec fn digits_tuple<V>(d: Seq<usize>, s: Seq<Seq<V>>) -> Seq<V> {
    Seq::new(d.len(), |j: int| s[j][d[j] as int])
}

/// Advances the positions `d` by one step of the odometer; the flag tells
/// whether the first position wrapped around.
pub open spec fn advance_digits<V>(d: Seq<usize>, s: Seq<Seq<V>>) -> (Seq<usize>, bool)
    decreases d.len(),
{
    if d.len() == 0 || s.len() == 0 {
        (d, true)
    } else if d.last() + 1 < s.last().len() {
        (d.drop_last().push((d.last() + 1) as usize), false)
    } else {
        let (p, carry) = advance_digits(d.drop_last(), s.drop_last());
        (p.push(0usize), carry)
    }
}

/// Whether `t` holds clones of the elements of `expected`.
pub open spec fn tuple_cloned<V: Clone>(expected: Seq<V>, t: Seq<V>) -> bool {
    &&& t.len() == expected.len()
    &&& forall|j: int| 0 <= j < t.len() ==> cloned(expected[j], #[trigger] t[j])
}

proof fn lemma_tuples_len<V>(s: Seq<Seq<V>>)
    ensures
        tuples(s).len() == lengths_product(s),
    decreases s.len(),
{
    if s.len() > 0 {
        lemma_tuples_len(s.drop_last());
    }
}

proof fn lemma_tuples_empty_factor<V>(s: Seq<Seq<V>>, j: int)
    requires
        0 <= j < s.len(),
        s[j].len() == 0,
    ensures
        tuples(s).len() == 0,
    decreases s.len(),
{
    let p = s.drop_last();
    if j < s.len() - 1 {
        assert(p[j] == s[j]);
        lemma_tuples_empty_factor(p, j);
        assert(tuples(p).len() * s.last().len() == 0);
    } else {
        assert(s.last().len() == 0);
        assert(tuples(p).len() * 0 == 0);
    }
}

proof fn lemma_digits_index<V>(d: Seq<usize>, s: Seq<Seq<V>>)
    requires
        digits_valid(d, s),
    ensures
        0 <= digits_index(d, s) < tuples(s).len(),
        tuples(s)[digits_index(d, s)] == digits_tuple(d, s),
    decreases d.len(),
{
    if d.len() == 0 {
        assert(digits_tuple(d, s) =~= Seq::<V>::empty());
    } else {
        let dp = d.drop_last();
        let sp = s.drop_last();
        assert forall|j: int| 0 <= j < dp.len() implies dp[j] < #[trigger] sp[j].len() && sp[j].len() <= usize::MAX by {
            assert(d[j] < s[j].len() && s[j].len() <= usize::MAX);
        }
        lemma_digits_index(dp, sp);
        let i = digits_index(dp, sp);
        let prev = tuples(sp);
        let pl = prev.len() as int;
        let l = s.last().len() as int;
        let dl = d.last() as int;
        assert(d[d.len() - 1] < s[s.len() - 1].len());
        let k = i * l + dl;
        assert(0 <= k < pl * l) by (nonlinear_arith)
            requires
                0 <= i < pl,
                0 <= dl < l,
                k == i * l + dl,
        ;
        lemma_fundamental_div_mod_converse(k, l, i, dl);
        assert(digits_tuple(dp, sp).push(s.last()[dl]) =~= digits_tuple(d, s));
    }
}

proof fn lemma_zero_digits<V>(d: Seq<usize>, s: Seq<Seq<V>>)
    requires
        d.len() == s.len(),
        forall|j: int| 0 <= j < d.len() ==> d[j] == 0,
    ensures
        digits_index(d, s) == 0,
    decreases d.len(),
{
    if d.len() > 0 {
        lemma_zero_digits(d.drop_last(), s.drop_last());
        assert(d[d.len() - 1] == 0);
    }
}

proof fn lemma_advance<V>(d: Seq<usize>, s: Seq<Seq<V>>)
    requires
        digits_valid(d, s),
    ensures
        advance_digits(d, s).0.len() == d.len(),
        advance_digits(d, s).1 ==> digits_index(d, s) + 1 == tuples(s).len(),
        !advance_digits(d, s).1 ==> digits_valid(advance_digits(d, s).0, s)
            && digits_index(advance_digits(d, s).0, s) == digits_index(d, s) + 1,
    decreases d.len(),
{
    if d.len() > 0 {
        let dp = d.drop_last();
        let sp = s.drop_last();
        assert forall|j: int| 0 <= j < dp.len() implies dp[j] < #[trigger] sp[j].len() && sp[j].len() <= usize::MAX by {
            assert(d[j] < s[j].len() && s[j].len() <= usize::MAX);
        }
        let l = s.last().len() as int;
        let dl = d.last() as int;
        assert(d[d.len() - 1] < s[s.len() - 1].len() && s[s.len() - 1].len() <= usize::MAX);
        let i = digits_index(dp, sp);
        lemma_digits_index(dp, sp);
        let pl = tuples(sp).len() as int;
        if dl + 1 < l {
            let d2 = dp.push((dl + 1) as usize);
            assert(d2.drop_last() =~= dp);
            assert forall|j: int| 0 <= j < d2.len() implies d2[j] < #[trigger] s[j].len() && s[j].len() <= usize::MAX by {
                assert(d[j] < s[j].len() && s[j].len() <= usize::MAX);
                if j < dp.len() {
                    assert(d2[j] == dp[j]);
                }
            }
            assert(d2.last() == dl + 1);
        } else {
            lemma_advance(dp, sp);
            let (p, carry) = advance_digits(dp, sp);
            let d2 = p.push(0usize);
            assert(d2.drop_last() =~= p);
            assert(dl + 1 == l);
            assert((i + 1) * l == i * l + l) by (nonlinear_arith);
            if carry {
                assert(pl * l == i * l + l) by (nonlinear_arith)
                    requires
                        i + 1 == pl,
                ;
            } else {
                assert forall|j: int| 0 <= j < d2.len() implies d2[j] < #[trigger] s[j].len() && s[j].len() <= usize::MAX by {
                    assert(d[j] < s[j].len() && s[j].len() <= usize::MAX);
                    if j < p.len() {
                        assert(d2[j] == p[j]);
                        assert(p[j] < sp[j].len());
                    }
                }
            }
        }
    }
}

/// The sequences held by a vector of vectors.
pub open spec fn sources_view<V>(v: Seq<Vec<V>>) -> Seq<Seq<V>> {
    v.map_values(|x: Vec<V>| x@)
}

/// Advances the first `m` positions of `digits` by one odometer step and
/// returns whether the first position wrapped around.
fn advance<V>(digits: &mut Vec<usize>, source: &Vec<Vec<V>>, m: usize) -> (carry: bool)
    requires
        m <= old(digits)@.len(),
        old(digits)@.len() == source@.len(),
        digits_valid(old(digits)@.take(m as int), sources_view(source@).take(m as int)),
    ensures
        final(digits)@ == advance_digits(
            old(digits)@.take(m as int),
            sources_view(source@).take(m as int),
        ).0 + old(digits)@.skip(m as int),
        carry == advance_digits(old(digits)@.take(m as int), sources_view(source@).take(m as int)).1,
    decreases m,
{
    let ghost d = digits@.take(m as int);
    let ghost s = sources_view(source@).take(m as int);
    if m == 0 {
        assert(digits@ =~= d + digits@.skip(0));
        return true;
    }
    let j = m - 1;
    assert(d.last() == digits@[j as int]);
    assert(s.last() == source@[j as int]@);
    assert(d[j as int] < s[j as int].len());
    assert(digits@[j as int] < source@[j as int]@.len());
    if digits[j] + 1 < source[j].len() {
        let v = digits[j] + 1;
        digits.set(j, v);
        assert(digits@ =~= d.drop_last().push(v) + old(digits)@.skip(m as int));
        false
    } else {
        digits.set(j, 0);
        assert(digits@.take(j as int) =~= d.drop_last());
        assert(sources_view(source@).take(j as int) =~= s.drop_last());
        let carry = advance(digits, source, j);
        proof {
            let p = advance_digits(d.drop_last(), s.drop_last()).0;
            lemma_advance(d.drop_last(), s.drop_last());
            assert(digits@ =~= p.push(0usize) + old(digits)@.skip(m as int));
        }
        carry
    }
}

/// Iterator over the cartesian product of the provided sequences.
///
/// Each step yields one combination: a tuple with one element of each
/// sequence. The last sequence ticks fastest; when the first one is used up
/// the iteration ends.
pub struct ProductIterator<V> {
    /// The sequences whose product is produced.
    source: Vec<Vec<V>>,
    /// Position in each sequence of the next combination.
    digits: Vec<usize>,
    /// Whether every combination has been produced.
    exhausted: bool,
    /// Number of combinations produced so far.
    position: Ghost<nat>,
}

impl<V: Clone> ProductIterator<V> {
    /// The sequences whose product is produced.
    pub closed spec fn sources(&self) -> Seq<Seq<V>> {
        sources_view(self.source@)
    }

    /// How many combinations have been produced so far.
    pub closed spec fn position(&self) -> nat {
        self.position@
    }

    /// The iterator's internal consistency.
    pub closed spec fn wf(&self) -> bool {
        &&& self.digits@.len() == self.source@.len()
        &&& self.position@ <= product_seq(self.sources()).len()
        &&& self.exhausted ==> self.position@ == product_seq(self.sources()).len()
        &&& !self.exhausted ==> {
            &&& self.source@.len() > 0
            &&& digits_valid(self.digits@, self.sources())
            &&& digits_index(self.digits@, self.sources()) == self.position@
        }
    }

    /// Creates a new [`ProductIterator`] over the provided sequences.
    pub fn new(iters: Vec<Vec<V>>) -> (r: Self)
        ensures
            r.wf(),
            r.sources() == sources_view(iters@),
            r.position() == 0,
    {
        let n = iters.len();
        let ghost s = sources_view(iters@);
        let mut digits: Vec<usize> = Vec::new();
        let mut any_empty = false;
        let mut j: usize = 0;
        while j < n
            invariant
                j <= n,
                n == iters@.len(),
                s == sources_view(iters@),
                digits@.len() == j,
                forall|i: int| 0 <= i < j ==> digits@[i] == 0,
                any_empty <==> exists|i: int| 0 <= i < j && #[trigger] s[i].len() == 0,
                forall|i: int| 0 <= i < j ==> #[trigger] s[i].len() <= usize::MAX,
            decreases n - j,
        {
            let len_j = iters[j].len();
            assert(s[j as int].len() == len_j);
            if len_j == 0 {
                any_empty = true;
            }
            assert(s[j as int] == iters@[j as int]@);
            digits.push(0);
            j = j + 1;
        }
        let exhausted = n == 0 || any_empty;
        proof {
            if n == 0 {
            } else if any_empty {
                let i = choose|i: int| 0 <= i < n && #[trigger] s[i].len() == 0;
                lemma_tuples_empty_factor(s, i);
            } else {
                lemma_zero_digits(digits@, s);
                assert forall|i: int| 0 <= i < digits@.len() implies digits@[i] < #[trigger] s[i].len() && s[i].len() <= usize::MAX by {
                    assert(s[i].len() != 0);
                    assert(s[i] == iters@[i]@);
                }
                lemma_digits_index(digits@, s);
            }
        }
        ProductIterator { source: iters, digits, exhausted, position: Ghost(0) }
    }

    /// Yields the next combination, or `None` once all have been yielded.
    pub fn next(&mut self) -> (r: Option<Vec<V>>)
        requires
            old(self).wf(),
        ensures
            final(self).wf(),
            final(self).sources() == old(self).sources(),
            r matches Some(t) ==> t@.len() == old(self).sources().len(),
            old(self).position() < product_seq(old(self).sources()).len() ==> {
                &&& r is Some
                &&& tuple_cloned(product_seq(old(self).sources())[old(self).position() as int], r->0@)
                &&& final(self).position() == old(self).position() + 1
            },
            old(self).position() >= product_seq(old(self).sources()).len() ==> {
                &&& r is None
                &&& final(self).position() == old(self).position()
            },
    {
        if self.exhausted {
            return None;
        }
        let ghost s = self.sources();
        let n = self.source.len();
        let mut t: Vec<V> = Vec::new();
        let mut j: usize = 0;
        while j < n
            invariant
                j <= n,
                n == self.source@.len(),
                s == self.sources(),
                digits_valid(self.digits@, s),
                t@.len() == j,
                forall|i: int| 0 <= i < j ==> cloned(digits_tuple(self.digits@, s)[i], #[trigger] t@[i]),
            decreases n - j,
        {
            assert(self.digits@[j as int] < s[j as int].len());
            assert(s[j as int] == self.source@[j as int]@);
            let v = self.source[j][self.digits[j]].clone();
            t.push(v);
            j = j + 1;
        }
        proof {
            lemma_digits_index(self.digits@, s);
            lemma_advance(self.digits@, s);
            assert(self.digits@.take(n as int) =~= self.digits@);
            assert(s.take(n as int) =~= s);
        }
        let carry = advance(&mut self.digits, &self.source, n);
        proof {
            assert(self.digits@ =~= advance_digits(old(self).digits@, s).0);
        }
        if carry {
            self.exhausted = true;
        }
        self.position = Ghost(self.position@ + 1);
        Some(t)
    }

    /// Yields all remaining combinations, in order.
    pub fn collect_all(&mut self) -> (r: Vec<Vec<V>>)
        requires
            old(self).wf(),
        ensures
            final(self).wf(),
            final(self).sources() == old(self).sources(),
            final(self).position() == product_seq(old(self).sources()).len(),
            r@.len() == product_seq(old(self).sources()).len() - old(self).position(),
            forall|k: int| 0 <= k < r@.len() ==> tuple_cloned(
                product_seq(old(self).sources())[old(self).position() + k],
                #[trigger] r@[k]@,
            ),
    {
        let ghost s = self.sources();
        let ghost start = self.position();
        let ghost total = product_seq(s).len();
        let mut out: Vec<Vec<V>> = Vec::new();
        loop
            invariant
                self.wf(),
                self.sources() == s,
                s == old(self).sources(),
                start == old(self).position(),
                total == product_seq(s).len(),
                start <= self.position() <= total,
                out@.len() == self.position() - start,
                forall|k: int| 0 <= k < out@.len() ==> tuple_cloned(
                    product_seq(s)[start + k],
                    #[trigger] out@[k]@,
                ),
            decreases total - self.position(),
        {
            let ghost before = self.position();
            match self.next() {
                Some(t) => {
                    out.push(t);
                },
                None => {
                    return out;
                },
            }
        }
    }
}

/// Creates an iterator over the cartesian product of the provided sequences.
pub fn product<V: Clone>(iters: Vec<Vec<V>>) -> (r: ProductIterator<V>)
    ensures
        r.wf(),
        r.sources() == sources_view(iters@),
        r.position() == 0,
{
    ProductIterator::new(iters)
}

/// The number of combinations is the product of the sequences' lengths
/// (none at all for no sequences).
pub proof fn law_product_count<V>(s: Seq<Seq<V>>)
    ensures
        product_seq(s).len() == if s.len() == 0 { 0 } else { lengths_product(s) },
{
    lemma_tuples_len(s);
}

proof fn lemma_tuples_item_len<V>(s: Seq<Seq<V>>, k: int)
    requires
        0 <= k < tuples(s).len(),
    ensures
        tuples(s)[k].len() == s.len(),
    decreases s.len(),
{
    if s.len() > 0 {
        let prev = tuples(s.drop_last());
        let l = s.last().len() as int;
        let p = prev.len() as int;
        assert(0 <= k / l < p) by (nonlinear_arith)
            requires
                0 <= k < p * l,
                p >= 0,
                l >= 0,
        ;
        lemma_tuples_item_len(s.drop_last(), k / l);
    }
}

/// Every combination has one element per sequence.
pub proof fn law_product_tuple_len<V>(s: Seq<Seq<V>>, k: int)
    requires
        0 <= k < product_seq(s).len(),
    ensures
        product_seq(s)[k].len() == s.len(),
{
    lemma_tuples_item_len(s, k);
}

/// Every combination of positions appears in the product, at its rank in the
/// mixed-radix order, and holds the picked elements.
pub proof fn law_product_complete<V>(d: Seq<usize>, s: Seq<Seq<V>>)
    requires
        s.len() > 0,
        digits_valid(d, s),
    ensures
        0 <= digits_index(d, s) < product_seq(s).len(),
        product_seq(s)[digits_index(d, s)] == digits_tuple(d, s),
{
    lemma_digits_index(d, s);
}

} // verus!
