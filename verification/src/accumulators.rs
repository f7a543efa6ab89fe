//! Tallies of outcome signatures. An accumulator maps each signature to an
//! occurrence count; its mathematical value is the multiset of signatures in
//! which each signature occurs as often as its count says. Merging two
//! accumulators adds the multisets, a commutative and associative combine.
use vstd::prelude::*;

verus! {

use vstd::multiset::Multiset;

broadcast use vstd::multiset::group_multiset_axioms;

/// `n` occurrences of one signature.
pub open spec fn sig_copies(sig: Seq<u8>, n: nat) -> Multiset<Seq<u8>>
    decreases n,
{
    if n == 0 {
        Multiset::empty()
    } else {
        sig_copies(sig, (n - 1) as nat).insert(sig)
    }
}

/// The multiset an entry list stands for.
pub open spec fn entries_ms(s: Seq<(Vec<u8>, u64)>) -> Multiset<Seq<u8>>
    decreases s.len(),
{
    if s.len() == 0 {
        Multiset::empty()
    } else {
        entries_ms(s.drop_last()).add(sig_copies(s.last().0@, s.last().1 as nat))
    }
}

/// No signature occurs twice in the entry list.
pub open spec fn unique_keys(s: Seq<(Vec<u8>, u64)>) -> bool {
    forall|i: int, j: int| 0 <= i < j < s.len() ==> s[i].0@ != s[j].0@
}

pub proof fn lemma_copies_count(sig: Seq<u8>, n: nat, x: Seq<u8>)
    ensures
        sig_copies(sig, n).count(x) == (if x == sig {
            n
        } else {
            0
        }),
        sig_copies(sig, n).len() == n,
    decreases n,
{
    if n > 0 {
        lemma_copies_count(sig, (n - 1) as nat, x);
    }
}

/// With unique keys, the multiset's count of a signature is the count stored
/// beside it, or zero when it is absent.
pub proof fn lemma_entries_count(s: Seq<(Vec<u8>, u64)>, x: Seq<u8>)
    requires
        unique_keys(s),
    ensures
        (forall|i: int| 0 <= i < s.len() ==> s[i].0@ != x) ==> entries_ms(s).count(x) == 0,
        forall|i: int|
            0 <= i < s.len() && s[i].0@ == x ==> entries_ms(s).count(x) == s[i].1 as nat,
    decreases s.len(),
{
    if s.len() > 0 {
        assert(unique_keys(s.drop_last()));
        lemma_entries_count(s.drop_last(), x);
        lemma_copies_count(s.last().0@, s.last().1 as nat, x);
        assert forall|i: int|
            0 <= i < s.len() && s[i].0@ == x implies entries_ms(s).count(x) == s[i].1 as nat by {
            if i < s.len() - 1 {
                assert(s.drop_last()[i].0@ == x);
                assert(s.last().0@ != x);
            } else {
                assert(forall|j: int| 0 <= j < s.len() - 1 ==> s.drop_last()[j].0@ != x);
            }
        }
    }
}

/// The total stored count of a prefix never exceeds that of the whole list,
/// signature by signature and in total.
pub proof fn lemma_prefix_mono(s: Seq<(Vec<u8>, u64)>, i: int)
    requires
        0 <= i <= s.len(),
    ensures
        forall|x: Seq<u8>|
            #[trigger] entries_ms(s.take(i)).count(x) <= entries_ms(s).count(x),
        entries_ms(s.take(i)).len() <= entries_ms(s).len(),
    decreases s.len() - i,
{
    if i == s.len() {
        assert(s.take(i) =~= s);
    } else {
        lemma_prefix_mono(s, i + 1);
        assert(s.take(i + 1).drop_last() =~= s.take(i));
        assert(s.take(i + 1).last() == s[i]);
        assert(entries_ms(s.take(i + 1)) == entries_ms(s.take(i)).add(
            sig_copies(s[i].0@, s[i].1 as nat),
        ));
        assert forall|x: Seq<u8>|
            #[trigger] entries_ms(s.take(i)).count(x) <= entries_ms(s).count(x) by {
            assert(entries_ms(s.take(i + 1)).count(x) <= entries_ms(s).count(x));
            assert(entries_ms(s.take(i + 1)).count(x) == entries_ms(s.take(i)).count(x)
                + sig_copies(s[i].0@, s[i].1 as nat).count(x));
        }
        assert(entries_ms(s.take(i + 1)).len() == entries_ms(s.take(i)).len() + sig_copies(
            s[i].0@,
            s[i].1 as nat,
        ).len());
    }
}

/// Peeling one entry off the front of a prefix.
pub proof fn lemma_take_step(s: Seq<(Vec<u8>, u64)>, i: int)
    requires
        0 <= i < s.len(),
    ensures
        entries_ms(s.take(i + 1)) == entries_ms(s.take(i)).add(sig_copies(s[i].0@, s[i].1 as nat)),
{
    assert(s.take(i + 1).drop_last() =~= s.take(i));
    assert(s.take(i + 1).last() == s[i]);
}

/// A tally of position outcome signatures: how many enumerated leaves ended
/// with each final ranking.
pub struct PositionAccumulator {
    entries: Vec<(Vec<u8>, u64)>,
}

impl View for PositionAccumulator {
    type V = Multiset<Seq<u8>>;

    closed spec fn view(&self) -> Multiset<Seq<u8>> {
        entries_ms(self.entries@)
    }
}

/// Whether two byte vectors hold the same bytes.
pub fn bytes_eq(a: &Vec<u8>, b: &Vec<u8>) -> (r: bool)
    ensures
        r == (a@ == b@),
{
    if a.len() != b.len() {
        proof {
            assert(a@ != b@);
        }
        return false;
    }
    let mut i: usize = 0;
    while i < a.len()
        invariant
            a@.len() == b@.len(),
            i <= a@.len(),
            forall|j: int| 0 <= j < i ==> a@[j] == b@[j],
        decreases a@.len() - i,
    {
        if a[i] != b[i] {
            proof {
                assert(a@ != b@);
            }
            return false;
        }
        i = i + 1;
    }
    proof {
        assert(a@ =~= b@);
    }
    true
}

impl PositionAccumulator {
    /// The entry list never repeats a signature.
    pub closed spec fn wf(self) -> bool {
        unique_keys(self.entries@)
    }

    /// An empty tally.
    pub fn new() -> (r: PositionAccumulator)
        ensures
            r.wf(),
            r@ == Multiset::<Seq<u8>>::empty(),
    {
        PositionAccumulator { entries: Vec::new() }
    }

    /// A tally of a single outcome, seen once.
    pub fn from_order(sig: Vec<u8>) -> (r: PositionAccumulator)
        ensures
            r.wf(),
            r@ == Multiset::singleton(sig@),
    {
        let ghost gsig = sig@;
        let mut entries: Vec<(Vec<u8>, u64)> = Vec::new();
        entries.push((sig, 1));
        let r = PositionAccumulator { entries };
        proof {
            let s = r.entries@;
            assert(s.len() == 1 && s.last().0@ == gsig && s.last().1 == 1);
            assert(s.drop_last().len() == 0);
            assert(entries_ms(s) == entries_ms(s.drop_last()).add(sig_copies(gsig, 1nat)));
            assert forall|x: Seq<u8>| r@.count(x) == Multiset::singleton(gsig).count(x) by {
                lemma_copies_count(gsig, 1, x);
            }
            assert(r@ =~= Multiset::singleton(gsig));
        }
        r
    }

    /// Record `c` more occurrences of a signature.
    pub fn add_count(&mut self, sig: &Vec<u8>, c: u64)
        requires
            old(self).wf(),
            old(self)@.count(sig@) + c <= u64::MAX,
        ensures
            final(self).wf(),
            final(self)@ == old(self)@.add(sig_copies(sig@, c as nat)),
    {
        let ghost s0 = self.entries@;
        let mut i: usize = 0;
        while i < self.entries.len()
            invariant
                self.entries@ == s0,
                old(self)@ == entries_ms(s0),
                unique_keys(s0),
                entries_ms(s0).count(sig@) + c <= u64::MAX,
                i <= s0.len(),
                forall|j: int| 0 <= j < i ==> s0[j].0@ != sig@,
            decreases s0.len() - i,
        {
            if bytes_eq(&self.entries[i].0, sig) {
                proof {
                    lemma_entries_count(s0, sig@);
                    assert(entries_ms(s0).count(sig@) == s0[i as int].1 as nat);
                }
                let c0 = self.entries[i].1;
                let key = crate::game::clone_bytes(sig);
                self.entries.set(i, (key, c0 + c));
                proof {
                    let s1 = self.entries@;
                    assert(s1 == s0.update(i as int, (key, (c0 + c) as u64)));
                    assert(s1[i as int].0@ == sig@ && s1[i as int].1 == c0 + c);
                    assert forall|j: int, k: int| 0 <= j < k < s1.len() implies s1[j].0@
                        != s1[k].0@ by {
                        assert(s0[j].0@ == s1[j].0@ || j == i);
                        assert(s0[k].0@ == s1[k].0@ || k == i);
                    }
                    lemma_entries_count(s1, sig@);
                    assert forall|x: Seq<u8>|
                        entries_ms(s1).count(x) == entries_ms(s0).add(
                            sig_copies(sig@, c as nat),
                        ).count(x) by {
                        lemma_copies_count(sig@, c as nat, x);
                        lemma_entries_count(s0, x);
                        lemma_entries_count(s1, x);
                        if x == sig@ {
                            assert(entries_ms(s1).count(x) == (c0 + c) as nat);
                            assert(entries_ms(s0).count(x) == c0 as nat);
                        } else {
                            assert(sig_copies(sig@, c as nat).count(x) == 0);
                            if exists|j: int| 0 <= j < s0.len() && s0[j].0@ == x {
                                let j = choose|j: int| 0 <= j < s0.len() && s0[j].0@ == x;
                                assert(j != i);
                                assert(s1[j].0@ == x);
                                assert(entries_ms(s1).count(x) == s1[j].1 as nat);
                                assert(entries_ms(s0).count(x) == s0[j].1 as nat);
                            } else {
                                assert forall|j: int| 0 <= j < s1.len() implies s1[j].0@ != x by {
                                    assert(s1[j].0@ == s0[j].0@ || j == i);
                                }
                                assert(entries_ms(s1).count(x) == 0);
                                assert(entries_ms(s0).count(x) == 0);
                            }
                        }
                    }
                    assert(entries_ms(s1) =~= entries_ms(s0).add(sig_copies(sig@, c as nat)));
                }
                return ;
            }
            i = i + 1;
        }
        let key = crate::game::clone_bytes(sig);
        self.entries.push((key, c));
        proof {
            let s1 = self.entries@;
            assert(s1.drop_last() =~= s0);
            assert(s1.last().0@ == sig@ && s1.last().1 == c);
            assert(entries_ms(s1) == entries_ms(s0).add(sig_copies(sig@, c as nat)));
        }
    }

    /// Merge another tally into this one; the combined multiset is the sum.
    pub fn join(&mut self, other: &PositionAccumulator)
        requires
            old(self).wf(),
            other.wf(),
            forall|x: Seq<u8>|
                #[trigger] old(self)@.count(x) + other@.count(x) <= u64::MAX,
        ensures
            final(self).wf(),
            final(self)@ == old(self)@.add(other@),
    {
        let ghost base = old(self)@;
        let ghost os = other.entries@;
        let mut i: usize = 0;
        while i < other.entries.len()
            invariant
                self.wf(),
                other.wf(),
                other.entries@ == os,
                i <= os.len(),
                self@ == base.add(entries_ms(os.take(i as int))),
                forall|x: Seq<u8>| #[trigger] base.count(x) + entries_ms(os).count(x) <= u64::MAX,
            decreases os.len() - i,
        {
            let c = other.entries[i].1;
            proof {
                let k = os[i as int].0@;
                lemma_take_step(os, i as int);
                lemma_prefix_mono(os, i + 1);
                lemma_copies_count(k, c as nat, k);
                assert(entries_ms(os.take(i + 1)).count(k) == entries_ms(os.take(i as int)).count(
                    k,
                ) + c);
                assert(entries_ms(os.take(i + 1)).count(k) <= entries_ms(os).count(k));
                assert(base.count(k) + entries_ms(os).count(k) <= u64::MAX);
                assert(self@.count(k) == base.count(k) + entries_ms(os.take(i as int)).count(k));
            }
            self.add_count(&other.entries[i].0, c);
            proof {
                lemma_take_step(os, i as int);
                assert(self@ =~= base.add(entries_ms(os.take(i + 1))));
            }
            i = i + 1;
        }
        proof {
            assert(os.take(os.len() as int) =~= os);
        }
    }

    /// The grand total: how many leaves this tally has recorded over all
    /// signatures.
    pub fn count_terminal(&self) -> (r: u64)
        requires
            self.wf(),
            self@.len() <= u64::MAX,
        ensures
            r as nat == self@.len(),
    {
        let mut total: u64 = 0;
        let mut i: usize = 0;
        while i < self.entries.len()
            invariant
                self.wf(),
                i <= self.entries@.len(),
                self@.len() <= u64::MAX,
                total as nat == entries_ms(self.entries@.take(i as int)).len(),
            decreases self.entries@.len() - i,
        {
            proof {
                lemma_take_step(self.entries@, i as int);
                lemma_prefix_mono(self.entries@, i + 1);
                lemma_copies_count(
                    self.entries@[i as int].0@,
                    self.entries@[i as int].1 as nat,
                    self.entries@[i as int].0@,
                );
            }
            total = total + self.entries[i].1;
            i = i + 1;
        }
        proof {
            assert(self.entries@.take(self.entries@.len() as int) =~= self.entries@);
        }
        total
    }

    /// How often one signature was recorded.
    pub fn count(&self, sig: &Vec<u8>) -> (r: u64)
        requires
            self.wf(),
        ensures
            r as nat == self@.count(sig@),
    {
        let mut i: usize = 0;
        while i < self.entries.len()
            invariant
                self.wf(),
                i <= self.entries@.len(),
                forall|j: int| 0 <= j < i ==> self.entries@[j].0@ != sig@,
            decreases self.entries@.len() - i,
        {
            if bytes_eq(&self.entries[i].0, sig) {
                proof {
                    lemma_entries_count(self.entries@, sig@);
                }
                return self.entries[i].1;
            }
            i = i + 1;
        }
        proof {
            lemma_entries_count(self.entries@, sig@);
        }
        0
    }

    /// Every signature seen, with its count; counts match the tally and the
    /// signatures listed are distinct.
    pub fn entries_list(&self) -> (r: Vec<(Vec<u8>, u64)>)
        requires
            self.wf(),
        ensures
            unique_keys(r@),
            forall|i: int| 0 <= i < r@.len() ==> #[trigger] r@[i].1 as nat == self@.count(r@[i].0@),
            entries_ms(r@) == self@,
    {
        let mut out: Vec<(Vec<u8>, u64)> = Vec::new();
        let mut i: usize = 0;
        while i < self.entries.len()
            invariant
                self.wf(),
                i <= self.entries@.len(),
                out@.len() == i,
                forall|j: int|
                    0 <= j < i ==> out@[j].0@ == self.entries@[j].0@ && out@[j].1
                        == self.entries@[j].1,
            decreases self.entries@.len() - i,
        {
            let key = crate::game::clone_bytes(&self.entries[i].0);
            out.push((key, self.entries[i].1));
            i = i + 1;
        }
        proof {
            lemma_entries_same(out@, self.entries@);
            assert forall|j: int| 0 <= j < out@.len() implies #[trigger] out@[j].1 as nat
                == self@.count(out@[j].0@) by {
                lemma_entries_count(self.entries@, out@[j].0@);
            }
        }
        out
    }
}

/// Entry lists equal key-for-key and count-for-count stand for one multiset.
pub proof fn lemma_entries_same(a: Seq<(Vec<u8>, u64)>, b: Seq<(Vec<u8>, u64)>)
    requires
        a.len() == b.len(),
        forall|j: int| 0 <= j < a.len() ==> a[j].0@ == b[j].0@ && a[j].1 == b[j].1,
    ensures
        entries_ms(a) == entries_ms(b),
    decreases a.len(),
{
    if a.len() > 0 {
        lemma_entries_same(a.drop_last(), b.drop_last());
    }
}

/// A tally of tile outcome signatures, gathered only while the round phase of
/// the enumeration is live; the same shape as the position tally under a
/// different key space.
pub struct TileAccumulator {
    inner: PositionAccumulator,
}

impl View for TileAccumulator {
    type V = Multiset<Seq<u8>>;

    closed spec fn view(&self) -> Multiset<Seq<u8>> {
        self.inner@
    }
}

impl TileAccumulator {
    pub closed spec fn wf(self) -> bool {
        self.inner.wf()
    }

    /// An empty tally.
    pub fn new() -> (r: TileAccumulator)
        ensures
            r.wf(),
            r@ == Multiset::<Seq<u8>>::empty(),
    {
        TileAccumulator { inner: PositionAccumulator::new() }
    }

    /// Record `c` more occurrences of a tile signature.
    pub fn add_count(&mut self, sig: &Vec<u8>, c: u64)
        requires
            old(self).wf(),
            old(self)@.count(sig@) + c <= u64::MAX,
        ensures
            final(self).wf(),
            final(self)@ == old(self)@.add(sig_copies(sig@, c as nat)),
    {
        self.inner.add_count(sig, c);
    }

    /// Merge another tile tally into this one.
    pub fn join(&mut self, other: &TileAccumulator)
        requires
            old(self).wf(),
            other.wf(),
            forall|x: Seq<u8>|
                #[trigger] old(self)@.count(x) + other@.count(x) <= u64::MAX,
        ensures
            final(self).wf(),
            final(self)@ == old(self)@.add(other@),
    {
        self.inner.join(&other.inner);
    }

    /// The grand total over all tile signatures.
    pub fn total(&self) -> (r: u64)
        requires
            self.wf(),
            self@.len() <= u64::MAX,
        ensures
            r as nat == self@.len(),
    {
        self.inner.count_terminal()
    }

    /// Every tile signature seen, with its count.
    pub fn entries_list(&self) -> (r: Vec<(Vec<u8>, u64)>)
        requires
            self.wf(),
        ensures
            unique_keys(r@),
            forall|i: int| 0 <= i < r@.len() ==> #[trigger] r@[i].1 as nat == self@.count(r@[i].0@),
            entries_ms(r@) == self@,
    {
        self.inner.entries_list()
    }
}

} // verus!
