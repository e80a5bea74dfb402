//! Refresh-rate sets, kept as strictly ascending vectors so that every set
//! has exactly one representation and a deterministic listing order.

use vstd::prelude::*;

verus! {

/// A refresh rate in hertz.
pub type RefreshRate = u32;

/// Whether every element of `q` is smaller than the one after it.
pub open spec fn is_ascending(q: Seq<u32>) -> bool {
    forall|i: int, j: int| 0 <= i < j < q.len() ==> q[i] < q[j]
}

/// The members of `s` that are smaller than `bound`, in increasing order.
pub open spec fn ascending_below(s: Set<u32>, bound: nat) -> Seq<u32>
    decreases bound,
{
    if bound == 0 {
        Seq::empty()
    } else {
        let rest = ascending_below(s, (bound - 1) as nat);
        if bound - 1 <= u32::MAX && s.contains((bound - 1) as u32) {
            rest.push((bound - 1) as u32)
        } else {
            rest
        }
    }
}

/// The members of `s` in increasing order.
pub open spec fn ascending(s: Set<u32>) -> Seq<u32> {
    ascending_below(s, 0x1_0000_0000)
}

/// `ascending_below` lists exactly the members under the bound, in order.
pub proof fn lemma_ascending_below(s: Set<u32>, bound: nat)
    ensures
        is_ascending(ascending_below(s, bound)),
        forall|r: u32| #[trigger]
            ascending_below(s, bound).contains(r) <==> s.contains(r) && r < bound,
    decreases bound,
{
    if bound > 0 {
        let rest = ascending_below(s, (bound - 1) as nat);
        let all = ascending_below(s, bound);
        lemma_ascending_below(s, (bound - 1) as nat);
        if bound - 1 <= u32::MAX && s.contains((bound - 1) as u32) {
            let top = (bound - 1) as u32;
            assert forall|i: int, j: int| 0 <= i < j < all.len() implies all[i] < all[j] by {
                assert(rest.contains(all[i]));
                if j < rest.len() {
                    assert(all[j] == rest[j]);
                }
            }
            assert forall|r: u32| #[trigger]
                all.contains(r) <==> s.contains(r) && r < bound by {
                if all.contains(r) {
                    let i = choose|i: int| 0 <= i < all.len() && all[i] == r;
                    if i < rest.len() {
                        assert(rest[i] == r);
                        assert(rest.contains(r));
                    }
                }
                if s.contains(r) && r < bound {
                    if r == top {
                        assert(all[rest.len() as int] == r);
                    } else {
                        assert(rest.contains(r));
                        let i = choose|i: int| 0 <= i < rest.len() && rest[i] == r;
                        assert(all[i] == r);
                    }
                }
            }
        } else {
            assert forall|r: u32| #[trigger]
                all.contains(r) <==> s.contains(r) && r < bound by {
                assert(rest.contains(r) <==> s.contains(r) && r < bound - 1);
            }
        }
    } else {
        assert forall|r: u32| !(#[trigger] ascending_below(s, bound).contains(r)) by {}
    }
}

/// The ascending listing of a set is ascending and holds exactly its members.
pub proof fn lemma_ascending(s: Set<u32>)
    ensures
        is_ascending(ascending(s)),
        ascending(s).to_set() == s,
        forall|r: u32| #[trigger] ascending(s).contains(r) <==> s.contains(r),
{
    lemma_ascending_below(s, 0x1_0000_0000);
    assert forall|r: u32| #[trigger] ascending(s).contains(r) <==> s.contains(r) by {}
    assert(ascending(s).to_set() =~= s);
}

/// Up to any bound, the listing of an ascending sequence's members is one of
/// its prefixes: the elements under the bound.
proof fn lemma_listing_prefix(q: Seq<u32>, bound: nat) -> (k: int)
    requires
        is_ascending(q),
        bound <= 0x1_0000_0000,
    ensures
        0 <= k <= q.len(),
        ascending_below(q.to_set(), bound) == q.take(k),
        forall|i: int| 0 <= i < k ==> q[i] < bound,
        forall|i: int| k <= i < q.len() ==> q[i] >= bound,
    decreases bound,
{
    if bound == 0 {
        assert(q.take(0) =~= Seq::<u32>::empty());
        0
    } else {
        let k = lemma_listing_prefix(q, (bound - 1) as nat);
        let top = (bound - 1) as u32;
        if k < q.len() && q[k] == top {
            assert(q.to_set().contains(top));
            assert(q.take(k).push(top) =~= q.take(k + 1));
            k + 1
        } else {
            if q.to_set().contains(top) {
                let i = choose|i: int| 0 <= i < q.len() && q[i] == top;
                assert(i >= k);
                assert(i > k);
                assert(q[k] < q[i]);
            }
            k
        }
    }
}

/// An ascending sequence is the ascending listing of its own members.
pub proof fn lemma_ascending_unique(q: Seq<u32>)
    requires
        is_ascending(q),
    ensures
        ascending(q.to_set()) == q,
{
    let k = lemma_listing_prefix(q, 0x1_0000_0000);
    if k < q.len() {
        assert(q[k] >= 0x1_0000_0000);
    }
    assert(q.take(k) =~= q);
}

/// One more element of a sequence adds that element to the set of the
/// elements before it.
proof fn lemma_take_next(q: Seq<u32>, i: int)
    requires
        0 <= i < q.len(),
    ensures
        q.take(i + 1).to_set() == q.take(i).to_set().insert(q[i]),
{
    assert(q.take(i + 1) =~= q.take(i).push(q[i]));
    q.take(i).lemma_push_to_set_commute(q[i]);
}

/// A finite set of refresh rates.
///
/// The rates are stored in strictly ascending order, so equal sets are stored
/// identically and are listed in one deterministic order.
#[derive(Debug, PartialEq, Eq)]
pub struct RateSet {
    rates: Vec<RefreshRate>,
}

impl View for RateSet {
    type V = Set<u32>;

    closed spec fn view(&self) -> Set<u32> {
        self.rates@.to_set()
    }
}

impl Clone for RateSet {
    fn clone(&self) -> (copy: Self)
        ensures
            copy@ == self@,
    {
        proof {
            use_type_invariant(self);
        }
        let rates = self.rates.clone();
        assert(rates@ =~= self.rates@);
        RateSet { rates }
    }
}

impl RateSet {
    #[verifier::type_invariant]
    spec fn ordered(&self) -> bool {
        is_ascending(self.rates@)
    }

    /// The empty set.
    pub fn new() -> (set: Self)
        ensures
            set@ == Set::<u32>::empty(),
    {
        let set = RateSet { rates: Vec::new() };
        assert(set.rates@.to_set() =~= Set::<u32>::empty());
        set
    }

    /// Whether `rate` is a member.
    pub fn contains(&self, rate: RefreshRate) -> (found: bool)
        ensures
            found == self@.contains(rate),
    {
        let mut i: usize = 0;
        while i < self.rates.len()
            invariant
                i <= self.rates.len(),
                forall|j: int| 0 <= j < i ==> self.rates@[j] != rate,
            decreases self.rates.len() - i,
        {
            if self.rates[i] == rate {
                return true;
            }
            i = i + 1;
        }
        false
    }

    /// Adds `rate` to the set; a rate that is already a member changes nothing.
    pub fn insert(&mut self, rate: RefreshRate)
        ensures
            final(self)@ == old(self)@.insert(rate),
    {
        proof {
            use_type_invariant(&*self);
        }
        let ghost before = self.rates@;
        let mut out: Vec<RefreshRate> = Vec::new();
        let mut i: usize = 0;
        while i < self.rates.len() && self.rates[i] < rate
            invariant
                self.rates@ == before,
                i <= before.len(),
                out@ == before.take(i as int),
                forall|j: int| 0 <= j < i ==> before[j] < rate,
            decreases before.len() - i,
        {
            out.push(self.rates[i]);
            assert(out@ =~= before.take(i + 1));
            i = i + 1;
        }
        let ghost split = i as int;
        if i < self.rates.len() && self.rates[i] == rate {
            assert(before.to_set() =~= before.to_set().insert(rate));
            return;
        }
        out.push(rate);
        while i < self.rates.len()
            invariant
                self.rates@ == before,
                0 <= split <= i <= before.len(),
                out@ == before.take(split).push(rate) + before.subrange(split, i as int),
            decreases before.len() - i,
        {
            out.push(self.rates[i]);
            assert(out@ =~= before.take(split).push(rate) + before.subrange(split, i + 1));
            i = i + 1;
        }
        proof {
            let after = out@;
            assert(after =~= before.insert(split, rate));
            assert forall|a: int, b: int| 0 <= a < b < after.len() implies after[a] < after[b] by {
                if b < split {
                } else if b == split {
                } else if a < split {
                    assert(before[a] < rate);
                    assert(after[b] == before[b - 1]);
                    if split < before.len() {
                        assert(before[split] > rate);
                        if b - 1 > split {
                            assert(before[split] < before[b - 1]);
                        }
                    }
                } else if a == split {
                    assert(after[b] == before[b - 1]);
                    assert(before[split] > rate);
                    if b - 1 > split {
                        assert(before[split] < before[b - 1]);
                    }
                } else {
                    assert(after[a] == before[a - 1]);
                    assert(after[b] == before[b - 1]);
                }
            }
            assert forall|r: u32| after.to_set().contains(r) <==> before.to_set().insert(
                rate,
            ).contains(r) by {
                if after.contains(r) {
                    let k = choose|k: int| 0 <= k < after.len() && after[k] == r;
                    if k < split {
                        assert(before[k] == r);
                    } else if k > split {
                        assert(before[k - 1] == r);
                    }
                }
                if before.contains(r) {
                    let k = choose|k: int| 0 <= k < before.len() && before[k] == r;
                    if k < split {
                        assert(after[k] == r);
                    } else {
                        assert(after[k + 1] == r);
                    }
                }
                if r == rate {
                    assert(after[split] == r);
                }
            }
            assert(after.to_set() =~= before.to_set().insert(rate));
        }
        self.rates = out;
    }

    /// Whether the set has no member.
    pub fn is_empty(&self) -> (empty: bool)
        ensures
            empty <==> self@ == Set::<u32>::empty(),
    {
        let empty = self.rates.len() == 0;
        proof {
            if empty {
                assert(self.rates@.to_set() =~= Set::<u32>::empty());
            } else {
                assert(self.rates@.to_set().contains(self.rates@[0]));
            }
        }
        empty
    }

    /// The members in increasing order.
    pub fn to_vec(&self) -> (list: Vec<RefreshRate>)
        ensures
            list@ == ascending(self@),
    {
        proof {
            use_type_invariant(self);
            lemma_ascending_unique(self.rates@);
        }
        let list = self.rates.clone();
        assert(list@ =~= self.rates@);
        list
    }

    /// The set of the values in `rates`, whatever their order and however
    /// often each occurs.
    pub fn from_vec(rates: &Vec<RefreshRate>) -> (set: Self)
        ensures
            set@ == rates@.to_set(),
    {
        let mut set = RateSet::new();
        let mut i: usize = 0;
        while i < rates.len()
            invariant
                i <= rates.len(),
                set@ == rates@.take(i as int).to_set(),
            decreases rates.len() - i,
        {
            set.insert(rates[i]);
            proof {
                lemma_take_next(rates@, i as int);
            }
            i = i + 1;
        }
        assert(rates@.take(i as int) =~= rates@);
        set
    }

    /// The rates that are in `self`, in `other`, or in both.
    pub fn union(&self, other: &RateSet) -> (all: RateSet)
        ensures
            all@ == self@.union(other@),
    {
        let mut all = self.clone();
        let mut i: usize = 0;
        while i < other.rates.len()
            invariant
                i <= other.rates.len(),
                all@ == self@.union(other.rates@.take(i as int).to_set()),
            decreases other.rates.len() - i,
        {
            all.insert(other.rates[i]);
            proof {
                lemma_take_next(other.rates@, i as int);
                assert(all@ =~= self@.union(other.rates@.take(i + 1).to_set()));
            }
            i = i + 1;
        }
        assert(other.rates@.take(i as int) =~= other.rates@);
        all
    }

    /// The rates of `self` that are not in `other`.
    pub fn difference(&self, other: &RateSet) -> (rest: RateSet)
        ensures
            rest@ == self@.difference(other@),
    {
        let mut rest = RateSet::new();
        let mut i: usize = 0;
        while i < self.rates.len()
            invariant
                i <= self.rates.len(),
                rest@ == self.rates@.take(i as int).to_set().difference(other@),
            decreases self.rates.len() - i,
        {
            let rate = self.rates[i];
            proof {
                lemma_take_next(self.rates@, i as int);
            }
            if !other.contains(rate) {
                rest.insert(rate);
            }
            assert(rest@ =~= self.rates@.take(i + 1).to_set().difference(other@));
            i = i + 1;
        }
        assert(self.rates@.take(i as int) =~= self.rates@);
        rest
    }
}

} // verus!
