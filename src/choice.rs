use vstd::prelude::*;
use rand::Rng;

verus! {

/// A key that a [`ChoiceMap`] can tell apart from another by its view.
pub trait ChoiceKey: View + Sized {
    fn same(&self, other: &Self) -> (r: bool)
        ensures
            r == (self@ == other@),
    ;
}

impl ChoiceKey for usize {
    fn same(&self, other: &Self) -> (r: bool) {
        *self == *other
    }
}

impl ChoiceKey for String {
    fn same(&self, other: &Self) -> (r: bool) {
        *self == *other
    }
}

/// A multiplicative reweighting of keys at sampling time.
pub trait Bias<T: View> {
    spec fn weight_of(&self, k: T::V) -> nat;

    fn weight(&self, k: &T) -> (r: usize)
        ensures
            r as nat == self.weight_of(k@),
            r >= 1,
    ;

    proof fn lemma_weight_positive(&self, k: T::V)
        ensures
            self.weight_of(k) >= 1,
    ;
}

/// The bias that weighs every key alike.
#[derive(Debug)]
pub struct Uniform;

impl<T: View> Bias<T> for Uniform {
    open spec fn weight_of(&self, k: T::V) -> nat {
        1
    }

    fn weight(&self, k: &T) -> (r: usize) {
        1
    }

    proof fn lemma_weight_positive(&self, k: T::V) {
    }
}

/// Sum of the counts of the entries whose key is `k`.
pub open spec fn count_of<V>(s: Seq<(V, nat)>, k: V) -> nat
    decreases s.len(),
{
    if s.len() == 0 {
        0
    } else {
        (if s[0].0 == k { s[0].1 } else { 0 }) + count_of(s.drop_first(), k)
    }
}

/// Sum of all counts.
pub open spec fn sum_of<V>(s: Seq<(V, nat)>) -> nat
    decreases s.len(),
{
    if s.len() == 0 {
        0
    } else {
        s[0].1 + sum_of(s.drop_first())
    }
}

/// Sum of all counts, each multiplied by the weight of its key.
pub open spec fn weighted_sum_of<V>(s: Seq<(V, nat)>, w: spec_fn(V) -> nat) -> nat
    decreases s.len(),
{
    if s.len() == 0 {
        0
    } else {
        s[0].1 * w(s[0].0) + weighted_sum_of(s.drop_first(), w)
    }
}

/// The key whose cumulative weight range, in entry order, contains `n`.
pub open spec fn landing<V>(s: Seq<(V, nat)>, w: spec_fn(V) -> nat, n: nat) -> Option<V>
    decreases s.len(),
{
    if s.len() == 0 {
        None
    } else if n < s[0].1 * w(s[0].0) {
        Some(s[0].0)
    } else {
        landing(s.drop_first(), w, (n - s[0].1 * w(s[0].0)) as nat)
    }
}

pub open spec fn unit_weight<V>() -> spec_fn(V) -> nat {
    |k: V| 1nat
}

pub open spec fn keys_unique<V>(s: Seq<(V, nat)>) -> bool {
    forall|i: int, j: int| 0 <= i < j < s.len() ==> s[i].0 != s[j].0
}

/// The entries after one more insertion of `k`: its count goes up by one in
/// place, or it is appended with count one.
pub open spec fn inserted<V>(s: Seq<(V, nat)>, k: V) -> Seq<(V, nat)> {
    if exists|i: int| 0 <= i < s.len() && s[i].0 == k {
        let i = choose|i: int| 0 <= i < s.len() && s[i].0 == k;
        s.update(i, (k, s[i].1 + 1))
    } else {
        s.push((k, 1nat))
    }
}

/// The entries of a table that started empty and received `ks` in order.
pub open spec fn inserted_all<V>(ks: Seq<V>) -> Seq<(V, nat)>
    decreases ks.len(),
{
    if ks.len() == 0 {
        Seq::empty()
    } else {
        inserted(inserted_all(ks.drop_last()), ks.last())
    }
}

/// How many times `k` occurs in `ks`.
pub open spec fn occurrences<V>(ks: Seq<V>, k: V) -> nat
    decreases ks.len(),
{
    if ks.len() == 0 {
        0
    } else {
        occurrences(ks.drop_last(), k) + (if ks.last() == k {
            1nat
        } else {
            0
        })
    }
}

/// After any sequence of insertions into an empty table, the total is the
/// number of insertions and each key's count is the number of times it was
/// inserted.
pub proof fn lemma_inserted_all_counts<V>(ks: Seq<V>)
    ensures
        sum_of(inserted_all(ks)) == ks.len(),
        forall|k: V| #[trigger] count_of(inserted_all(ks), k) == occurrences(ks, k),
    decreases ks.len(),
{
    if ks.len() > 0 {
        let s = inserted_all(ks.drop_last());
        let v = ks.last();
        lemma_inserted_all_counts(ks.drop_last());
        if exists|i: int| 0 <= i < s.len() && s[i].0 == v {
            let i = choose|i: int| 0 <= i < s.len() && s[i].0 == v;
            lemma_sum_bump(s, i);
            assert forall|k: V| #[trigger] count_of(inserted_all(ks), k) == occurrences(ks, k) by {
                lemma_count_bump(s, i, k);
            }
        } else {
            lemma_sum_push(s, (v, 1nat));
            assert forall|k: V| #[trigger] count_of(inserted_all(ks), k) == occurrences(ks, k) by {
                lemma_count_push(s, (v, 1nat), k);
            }
        }
    } else {
        assert forall|k: V| #[trigger] count_of(inserted_all(ks), k) == occurrences(ks, k) by {
            assert(inserted_all(ks) =~= Seq::<(V, nat)>::empty());
        }
    }
}

/// How many of the draws below `m` land on `k`.
pub open spec fn hits<V>(s: Seq<(V, nat)>, w: spec_fn(V) -> nat, k: V, m: nat) -> nat
    decreases m,
{
    if m == 0 {
        0
    } else {
        hits(s, w, k, (m - 1) as nat) + (if landing(s, w, (m - 1) as nat) == Some(k) {
            1nat
        } else {
            0
        })
    }
}

/// Sum of count times weight over the entries whose key is `k`.
pub open spec fn weighted_count_of<V>(s: Seq<(V, nat)>, w: spec_fn(V) -> nat, k: V) -> nat
    decreases s.len(),
{
    if s.len() == 0 {
        0
    } else {
        (if s[0].0 == k { s[0].1 * w(s[0].0) } else { 0 }) + weighted_count_of(s.drop_first(), w, k)
    }
}

proof fn lemma_hits_head<V>(s: Seq<(V, nat)>, w: spec_fn(V) -> nat, k: V, m: nat)
    requires
        s.len() > 0,
        m <= s[0].1 * w(s[0].0),
    ensures
        hits(s, w, k, m) == (if s[0].0 == k { m } else { 0 }),
    decreases m,
{
    if m > 0 {
        lemma_hits_head(s, w, k, (m - 1) as nat);
    }
}

proof fn lemma_hits_tail<V>(s: Seq<(V, nat)>, w: spec_fn(V) -> nat, k: V, m: nat)
    requires
        s.len() > 0,
    ensures
        hits(s, w, k, s[0].1 * w(s[0].0) + m) == hits(s, w, k, s[0].1 * w(s[0].0)) + hits(
            s.drop_first(),
            w,
            k,
            m,
        ),
    decreases m,
{
    let c = s[0].1 * w(s[0].0);
    if m > 0 {
        lemma_hits_tail(s, w, k, (m - 1) as nat);
        assert(landing(s, w, (c + m - 1) as nat) == landing(s.drop_first(), w, (m - 1) as nat));
    }
}

/// Each key is landed on by exactly its count times its weight of the draws
/// below the weighted total, whatever the entry order: a uniform draw picks
/// it with that share of the total.
pub proof fn lemma_draws_per_key<V>(s: Seq<(V, nat)>, w: spec_fn(V) -> nat, k: V)
    ensures
        hits(s, w, k, weighted_sum_of(s, w)) == weighted_count_of(s, w, k),
    decreases s.len(),
{
    if s.len() > 0 {
        let c = s[0].1 * w(s[0].0);
        lemma_draws_per_key(s.drop_first(), w, k);
        lemma_hits_tail(s, w, k, weighted_sum_of(s.drop_first(), w));
        lemma_hits_head(s, w, k, c);
    }
}

proof fn lemma_unit_weighted_count<V>(s: Seq<(V, nat)>, k: V)
    ensures
        weighted_count_of(s, unit_weight(), k) == count_of(s, k),
    decreases s.len(),
{
    if s.len() > 0 {
        lemma_unit_weighted_count(s.drop_first(), k);
        assert(unit_weight::<V>()(s[0].0) == 1);
    }
}

/// Each key is landed on by exactly its count of the draws below the total:
/// plain sampling picks a key with probability count over total.
pub proof fn lemma_plain_draws_per_key<V>(s: Seq<(V, nat)>, k: V)
    ensures
        hits(s, unit_weight(), k, sum_of(s)) == count_of(s, k),
{
    lemma_unit_weighted_sum(s);
    lemma_draws_per_key(s, unit_weight(), k);
    lemma_unit_weighted_count(s, k);
}

/// A frequency-weighted multiset: each key with the number of times it was
/// inserted, in the order in which keys first appeared.
#[derive(Debug)]
pub struct ChoiceMap<T> {
    entries: Vec<(T, usize)>,
    total: usize,
}

impl<T: View> View for ChoiceMap<T> {
    type V = Seq<(T::V, nat)>;

    closed spec fn view(&self) -> Seq<(T::V, nat)> {
        self.entries@.map_values(|e: (T, usize)| (e.0@, e.1 as nat))
    }
}

/// Relies on rand's `thread_rng` and `Rng::gen_range`: a draw in `[0, bound)`.
#[verifier::external_body]
fn draw_below(bound: usize) -> (r: usize)
    requires
        bound > 0,
    ensures
        r < bound,
{
    rand::thread_rng().gen_range(0..bound)
}

proof fn lemma_sum_push<V>(s: Seq<(V, nat)>, e: (V, nat))
    ensures
        sum_of(s.push(e)) == sum_of(s) + e.1,
    decreases s.len(),
{
    if s.len() > 0 {
        assert(s.push(e).drop_first() =~= s.drop_first().push(e));
        assert(s.push(e)[0] == s[0]);
        lemma_sum_push(s.drop_first(), e);
    } else {
        assert(s.push(e).drop_first() =~= Seq::<(V, nat)>::empty());
        assert(s.push(e)[0] == e);
        reveal_with_fuel(sum_of, 2);
    }
}

proof fn lemma_count_push<V>(s: Seq<(V, nat)>, e: (V, nat), k: V)
    ensures
        count_of(s.push(e), k) == count_of(s, k) + (if e.0 == k { e.1 } else { 0 }),
    decreases s.len(),
{
    if s.len() > 0 {
        assert(s.push(e).drop_first() =~= s.drop_first().push(e));
        assert(s.push(e)[0] == s[0]);
        lemma_count_push(s.drop_first(), e, k);
    } else {
        assert(s.push(e).drop_first() =~= Seq::<(V, nat)>::empty());
        assert(s.push(e)[0] == e);
        reveal_with_fuel(count_of, 2);
    }
}

proof fn lemma_sum_bump<V>(s: Seq<(V, nat)>, i: int)
    requires
        0 <= i < s.len(),
    ensures
        sum_of(s.update(i, (s[i].0, s[i].1 + 1))) == sum_of(s) + 1,
    decreases s.len(),
{
    let t = s.update(i, (s[i].0, s[i].1 + 1));
    if i > 0 {
        assert(t.drop_first() =~= s.drop_first().update(i - 1, (s[i].0, s[i].1 + 1)));
        lemma_sum_bump(s.drop_first(), i - 1);
    } else {
        assert(t.drop_first() =~= s.drop_first());
    }
}

proof fn lemma_count_bump<V>(s: Seq<(V, nat)>, i: int, k: V)
    requires
        0 <= i < s.len(),
    ensures
        count_of(s.update(i, (s[i].0, s[i].1 + 1)), k) == count_of(s, k) + (if s[i].0 == k {
            1nat
        } else {
            0
        }),
    decreases s.len(),
{
    let t = s.update(i, (s[i].0, s[i].1 + 1));
    if i > 0 {
        assert(t.drop_first() =~= s.drop_first().update(i - 1, (s[i].0, s[i].1 + 1)));
        lemma_count_bump(s.drop_first(), i - 1, k);
    } else {
        assert(t.drop_first() =~= s.drop_first());
    }
}

/// A key that no entry holds has count zero.
proof fn lemma_count_absent<V>(s: Seq<(V, nat)>, k: V)
    requires
        forall|i: int| 0 <= i < s.len() ==> s[i].0 != k,
    ensures
        count_of(s, k) == 0,
    decreases s.len(),
{
    if s.len() > 0 {
        lemma_count_absent(s.drop_first(), k);
    }
}

/// Where no count is zero, a key that an entry holds has a positive count.
proof fn lemma_count_present<V>(s: Seq<(V, nat)>, i: int)
    requires
        0 <= i < s.len(),
        s[i].1 >= 1,
    ensures
        count_of(s, s[i].0) >= 1,
    decreases s.len(),
{
    if i > 0 {
        lemma_count_present(s.drop_first(), i - 1);
    }
}

/// The landing key is the key of some entry.
proof fn lemma_landing_in<V>(s: Seq<(V, nat)>, w: spec_fn(V) -> nat, n: nat)
    ensures
        landing(s, w, n) is Some ==> exists|i: int|
            0 <= i < s.len() && s[i].0 == landing(s, w, n)->0 && s[i].1 * w(s[i].0) > 0,
    decreases s.len(),
{
    if s.len() > 0 && !(n < s[0].1 * w(s[0].0)) {
        let m = (n - s[0].1 * w(s[0].0)) as nat;
        lemma_landing_in(s.drop_first(), w, m);
        if landing(s, w, n) is Some {
            let i = choose|i: int|
                0 <= i < s.drop_first().len() && s.drop_first()[i].0 == landing(s, w, n)->0
                    && s.drop_first()[i].1 * w(s.drop_first()[i].0) > 0;
            assert(s[i + 1] == s.drop_first()[i]);
        }
    } else if s.len() > 0 {
        assert(s[0].1 * w(s[0].0) > 0);
    }
}

/// At or past the weighted total no key is landed on.
proof fn lemma_landing_past_end<V>(s: Seq<(V, nat)>, w: spec_fn(V) -> nat, n: nat)
    requires
        n >= weighted_sum_of(s, w),
    ensures
        landing(s, w, n) is None,
    decreases s.len(),
{
    if s.len() > 0 {
        lemma_landing_past_end(s.drop_first(), w, (n - s[0].1 * w(s[0].0)) as nat);
    }
}

/// Below the weighted total some key is landed on.
proof fn lemma_landing_some<V>(s: Seq<(V, nat)>, w: spec_fn(V) -> nat, n: nat)
    requires
        n < weighted_sum_of(s, w),
    ensures
        landing(s, w, n) is Some,
    decreases s.len(),
{
    if s.len() > 0 && !(n < s[0].1 * w(s[0].0)) {
        lemma_landing_some(s.drop_first(), w, (n - s[0].1 * w(s[0].0)) as nat);
    }
}

/// With weight one for every key, the weighted total is the total.
pub proof fn lemma_unit_weighted_sum<V>(s: Seq<(V, nat)>)
    ensures
        weighted_sum_of(s, unit_weight()) == sum_of(s),
    decreases s.len(),
{
    if s.len() > 0 {
        lemma_unit_weighted_sum(s.drop_first());
        assert(unit_weight::<V>()(s[0].0) == 1);
    }
}

/// A draw below the weighted total lands on some key, and that key has a
/// positive count: sampling never returns a key that was never inserted.
pub proof fn lemma_landing_has_count<V>(s: Seq<(V, nat)>, w: spec_fn(V) -> nat, n: nat)
    requires
        n < weighted_sum_of(s, w),
    ensures
        landing(s, w, n) is Some,
        count_of(s, landing(s, w, n)->0) >= 1,
{
    lemma_landing_some(s, w, n);
    lemma_landing_in(s, w, n);
    let i = choose|i: int|
        0 <= i < s.len() && s[i].0 == landing(s, w, n)->0 && s[i].1 * w(s[i].0) > 0;
    assert(s[i].1 >= 1) by (nonlinear_arith)
        requires
            s[i].1 * w(s[i].0) > 0,
    ;
    lemma_count_present(s, i);
}

/// With weight one for every key, the weighted total is the plain total and
/// the biased selection lands on the same key as the plain one for every draw:
/// biased sampling under [`Uniform`] is plain sampling.
pub proof fn lemma_uniform_bias_is_plain<T: View>(s: Seq<(T::V, nat)>, n: nat)
    ensures
        weighted_sum_of(s, weigh::<T, Uniform>(Uniform)) == sum_of(s),
        landing(s, weigh::<T, Uniform>(Uniform), n) == landing(s, unit_weight(), n),
{
    assert(weigh::<T, Uniform>(Uniform) =~= unit_weight::<T::V>());
    lemma_unit_weighted_sum(s);
}

/// The weights of a bias as a spec function of keys.
pub open spec fn weigh<T: View, B: Bias<T>>(b: B) -> spec_fn(T::V) -> nat {
    |k: T::V| b.weight_of(k)
}

proof fn lemma_entry_le_sum<V>(s: Seq<(V, nat)>, i: int)
    requires
        0 <= i < s.len(),
    ensures
        s[i].1 <= sum_of(s),
    decreases s.len(),
{
    if i > 0 {
        lemma_entry_le_sum(s.drop_first(), i - 1);
    }
}

/// Weights bounded by `m` give a weighted total of at most `m` times the total.
pub proof fn lemma_weighted_sum_bound<V>(s: Seq<(V, nat)>, w: spec_fn(V) -> nat, m: nat)
    requires
        forall|k: V| #[trigger] w(k) <= m,
    ensures
        weighted_sum_of(s, w) <= m * sum_of(s),
    decreases s.len(),
{
    if s.len() > 0 {
        lemma_weighted_sum_bound(s.drop_first(), w, m);
        let a = s[0].1;
        let b = w(s[0].0);
        let r = sum_of(s.drop_first());
        assert(a * b + m * r <= m * (a + r)) by (nonlinear_arith)
            requires
                b <= m,
        ;
    }
}

/// Where every weight is at least one, the weighted total is zero exactly when
/// the total is.
pub proof fn lemma_weighted_sum_zero<V>(s: Seq<(V, nat)>, w: spec_fn(V) -> nat)
    requires
        forall|k: V| #[trigger] w(k) >= 1,
    ensures
        (weighted_sum_of(s, w) == 0) == (sum_of(s) == 0),
    decreases s.len(),
{
    if s.len() > 0 {
        lemma_weighted_sum_zero(s.drop_first(), w);
        let a = s[0].1;
        let b = w(s[0].0);
        assert(a * b >= a && (a == 0 ==> a * b == 0)) by (nonlinear_arith)
            requires
                b >= 1,
        ;
    }
}

impl<T: ChoiceKey> ChoiceMap<T> {
    /// Totals agree with counts, keys are distinct, and no count is zero.
    pub closed spec fn wf(&self) -> bool {
        &&& self.total as nat == sum_of(self@)
        &&& keys_unique(self@)
        &&& forall|i: int| 0 <= i < self@.len() ==> #[trigger] self@[i].1 >= 1
    }

    #[must_use]
    pub fn new() -> (r: Self)
        ensures
            r.wf(),
            r@ == Seq::<(T::V, nat)>::empty(),
    {
        let r = ChoiceMap { entries: Vec::new(), total: 0 };
        assert(r@ =~= Seq::<(T::V, nat)>::empty());
        r
    }

    /// The number of insertions so far.
    pub fn total(&self) -> (r: usize)
        requires
            self.wf(),
        ensures
            r == sum_of(self@),
    {
        self.total
    }

    fn find(&self, val: &T) -> (r: Option<usize>)
        ensures
            match r {
                Some(i) => i < self@.len() && self@[i as int].0 == val@,
                None => forall|i: int| 0 <= i < self@.len() ==> self@[i].0 != val@,
            },
    {
        let mut i: usize = 0;
        while i < self.entries.len()
            invariant
                i <= self.entries@.len(),
                forall|j: int| 0 <= j < i ==> self@[j].0 != val@,
            decreases self.entries@.len() - i,
        {
            if self.entries[i].0.same(val) {
                return Some(i);
            }
            i = i + 1;
        }
        None
    }

    /// Adds one to the count of `val`, which starts at one if it was absent.
    pub fn insert(&mut self, val: T)
        requires
            old(self).wf(),
            sum_of(old(self)@) < usize::MAX,
        ensures
            final(self).wf(),
            final(self)@ == inserted(old(self)@, val@),
            sum_of(final(self)@) == sum_of(old(self)@) + 1,
            forall|k: T::V| #[trigger]
                count_of(final(self)@, k) == count_of(old(self)@, k) + (if k == val@ {
                    1nat
                } else {
                    0
                }),
    {
        let ghost s = self@;
        match self.find(&val) {
            Some(i) => {
                proof {
                    lemma_entry_le_sum(s, i as int);
                }
                let c = self.entries[i].1;
                self.entries[i].1 = c + 1;
                assert(self@ =~= s.update(i as int, (s[i as int].0, s[i as int].1 + 1)));
                proof {
                    let j = choose|j: int| 0 <= j < s.len() && s[j].0 == val@;
                    assert(j == i);
                }
                proof {
                    lemma_sum_bump(s, i as int);
                    assert forall|k: T::V| #[trigger]
                        count_of(self@, k) == count_of(s, k) + (if k == val@ {
                            1nat
                        } else {
                            0
                        }) by {
                        lemma_count_bump(s, i as int, k);
                    }
                }
            },
            None => {
                let ghost e = (val@, 1nat);
                self.entries.push((val, 1));
                assert(self@ =~= s.push(e));
                proof {
                    lemma_sum_push(s, e);
                    assert forall|k: T::V| #[trigger]
                        count_of(self@, k) == count_of(s, k) + (if k == e.0 {
                            1nat
                        } else {
                            0
                        }) by {
                        lemma_count_push(s, e, k);
                    }
                }
            },
        }
        self.total = self.total + 1;
    }

    /// The sum of count times weight under `bias` over all keys.
    pub fn weighted_total<B: Bias<T>>(&self, bias: &B) -> (r: usize)
        requires
            self.wf(),
            weighted_sum_of(self@, weigh::<T, B>(*bias)) <= usize::MAX,
        ensures
            r == weighted_sum_of(self@, weigh::<T, B>(*bias)),
    {
        let ghost w = weigh::<T, B>(*bias);
        let ghost s = self@;
        let mut i: usize = 0;
        let mut acc: usize = 0;
        assert(s.subrange(0, s.len() as int) =~= s);
        while i < self.entries.len()
            invariant
                s == self@,
                w == weigh::<T, B>(*bias),
                i <= s.len(),
                s.len() == self.entries@.len(),
                acc + weighted_sum_of(s.subrange(i as int, s.len() as int), w)
                    == weighted_sum_of(s, w),
                weighted_sum_of(s, w) <= usize::MAX,
            decreases s.len() - i,
        {
            let ghost rest = s.subrange(i as int, s.len() as int);
            assert(rest[0] == s[i as int]);
            assert(s[i as int] == (self.entries@[i as int].0@, self.entries@[i as int].1 as nat));
            assert(w(s[i as int].0) == bias.weight_of(s[i as int].0));
            assert(rest.drop_first() =~= s.subrange(i + 1, s.len() as int));
            let wt = bias.weight(&self.entries[i].0);
            let cnt = self.entries[i].1;
            assert(cnt as nat * wt as nat == rest[0].1 * w(rest[0].0));
            acc = acc + cnt * wt;
            i = i + 1;
        }
        assert(s.subrange(i as int, s.len() as int).len() == 0);
        acc
    }

    /// The key whose cumulative range of count times weight, in entry order,
    /// contains the draw `n`.
    pub fn pick_biased<B: Bias<T>>(&self, bias: &B, n: usize) -> (r: Option<&T>)
        requires
            self.wf(),
            weighted_sum_of(self@, weigh::<T, B>(*bias)) <= usize::MAX,
        ensures
            match r {
                Some(k) => landing(self@, weigh::<T, B>(*bias), n as nat) == Some(k@),
                None => landing(self@, weigh::<T, B>(*bias), n as nat) is None,
            },
    {
        let ghost w = weigh::<T, B>(*bias);
        let ghost s = self@;
        let mut i: usize = 0;
        let mut acc: usize = 0;
        assert(s.subrange(0, s.len() as int) =~= s);
        while i < self.entries.len()
            invariant
                s == self@,
                w == weigh::<T, B>(*bias),
                i <= s.len(),
                s.len() == self.entries@.len(),
                acc <= n,
                acc + weighted_sum_of(s.subrange(i as int, s.len() as int), w)
                    == weighted_sum_of(s, w),
                weighted_sum_of(s, w) <= usize::MAX,
                landing(s, w, n as nat) == landing(
                    s.subrange(i as int, s.len() as int),
                    w,
                    (n - acc) as nat,
                ),
            decreases s.len() - i,
        {
            let ghost rest = s.subrange(i as int, s.len() as int);
            assert(rest[0] == s[i as int]);
            assert(s[i as int] == (self.entries@[i as int].0@, self.entries@[i as int].1 as nat));
            assert(w(s[i as int].0) == bias.weight_of(s[i as int].0));
            assert(rest.drop_first() =~= s.subrange(i + 1, s.len() as int));
            let wt = bias.weight(&self.entries[i].0);
            let cnt = self.entries[i].1;
            assert(cnt as nat * wt as nat == rest[0].1 * w(rest[0].0));
            let c = cnt * wt;
            if n - acc < c {
                return Some(&self.entries[i].0);
            }
            acc = acc + c;
            i = i + 1;
        }
        assert(s.subrange(i as int, s.len() as int).len() == 0);
        None
    }

    /// The key whose cumulative count range, in entry order, contains the
    /// draw `n`.
    pub fn pick(&self, n: usize) -> (r: Option<&T>)
        requires
            self.wf(),
        ensures
            match r {
                Some(k) => landing(self@, unit_weight(), n as nat) == Some(k@),
                None => landing(self@, unit_weight(), n as nat) is None,
            },
            (n < sum_of(self@)) == (r is Some),
    {
        proof {
            lemma_uniform_bias_is_plain::<T>(self@, n as nat);
            lemma_unit_weighted_sum(self@);
            if n < sum_of(self@) {
                lemma_landing_has_count(self@, unit_weight(), n as nat);
            }
        }
        let r = self.pick_biased(&Uniform, n);
        proof {
            if n >= sum_of(self@) {
                lemma_landing_past_end(self@, unit_weight(), n as nat);
            }
        }
        r
    }

    /// Samples a key with probability proportional to its count; `None`
    /// when the table is empty.
    pub fn sample(&self) -> (r: Option<&T>)
        requires
            self.wf(),
        ensures
            r is None <==> sum_of(self@) == 0,
            r matches Some(k) ==> count_of(self@, k@) >= 1 && exists|n: nat|
                n < sum_of(self@) && landing(self@, unit_weight(), n) == Some(k@),
    {
        if self.total == 0 {
            return None;
        }
        let n = draw_below(self.total);
        proof {
            lemma_unit_weighted_sum(self@);
            lemma_landing_has_count(self@, unit_weight(), n as nat);
        }
        self.pick(n)
    }

    /// Samples a key with probability proportional to its count times its
    /// weight under `bias`; `None` when the table is empty.
    pub fn sample_biased<B: Bias<T>>(&self, bias: &B) -> (r: Option<&T>)
        requires
            self.wf(),
            weighted_sum_of(self@, weigh::<T, B>(*bias)) <= usize::MAX,
        ensures
            r is None <==> sum_of(self@) == 0,
            r matches Some(k) ==> count_of(self@, k@) >= 1 && exists|n: nat|
                n < weighted_sum_of(self@, weigh::<T, B>(*bias)) && landing(
                    self@,
                    weigh::<T, B>(*bias),
                    n,
                ) == Some(k@),
    {
        let ghost w = weigh::<T, B>(*bias);
        let total = self.weighted_total(bias);
        proof {
            assert forall|k: T::V| #[trigger] w(k) >= 1 by {
                bias.lemma_weight_positive(k);
            }
            lemma_weighted_sum_zero(self@, w);
        }
        if total == 0 {
            return None;
        }
        let n = draw_below(total);
        proof {
            lemma_landing_has_count(self@, w, n as nat);
        }
        self.pick_biased(bias, n)
    }
}

proof fn lemma_count_unique<V>(s: Seq<(V, nat)>, i: int)
    requires
        0 <= i < s.len(),
        keys_unique(s),
    ensures
        count_of(s, s[i].0) == s[i].1,
    decreases s.len(),
{
    let k = s[i].0;
    if i > 0 {
        assert(keys_unique(s.drop_first()));
        assert(s[0].0 != k);
        lemma_count_unique(s.drop_first(), i - 1);
    } else {
        assert forall|j: int| 0 <= j < s.drop_first().len() implies s.drop_first()[j].0 != k by {
            assert(s.drop_first()[j] == s[j + 1]);
        }
        lemma_count_absent(s.drop_first(), k);
    }
}

impl<T: ChoiceKey> ChoiceMap<T> {
    /// How many times `val` was inserted.
    pub fn count(&self, val: &T) -> (r: usize)
        requires
            self.wf(),
        ensures
            r == count_of(self@, val@),
    {
        match self.find(val) {
            Some(i) => {
                proof {
                    lemma_count_unique(self@, i as int);
                }
                self.entries[i].1
            },
            None => {
                proof {
                    lemma_count_absent(self@, val@);
                }
                0
            },
        }
    }
}

} // verus!
