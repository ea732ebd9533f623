//! The address record set built from a zone transfer: an ordered mapping
//! from each discovered address to the forward hostnames that point at it,
//! keyed by address identity, keeping insertion order.
use vstd::prelude::*;

use crate::ip::IpAddress;

verus! {

/// One entry per distinct address, in the order addresses were first seen;
/// every entry holds at least one hostname.
pub struct AddressRecordSet {
    entries: Vec<(IpAddress, Vec<String>)>,
}

impl View for AddressRecordSet {
    type V = Seq<(IpAddress, Seq<Seq<char>>)>;

    closed spec fn view(&self) -> Seq<(IpAddress, Seq<Seq<char>>)> {
        self.entries@.map(|i: int, e: (IpAddress, Vec<String>)| (e.0, e.1.deep_view()))
    }
}

/// Keys are distinct and no hostname list is empty.
pub open spec fn record_set_wf(m: Seq<(IpAddress, Seq<Seq<char>>)>) -> bool {
    &&& forall|i: int, j: int| 0 <= i < j < m.len() ==> (#[trigger] m[i]).0 != (#[trigger] m[j]).0
    &&& forall|i: int| 0 <= i < m.len() ==> (#[trigger] m[i]).1.len() >= 1
}

/// Index of the entry keyed by `a`, or -1 when there is none.
pub open spec fn addr_index(m: Seq<(IpAddress, Seq<Seq<char>>)>, a: IpAddress) -> int
    decreases m.len(),
{
    if m.len() == 0 {
        -1
    } else if m[0].0 == a {
        0
    } else {
        let r = addr_index(m.drop_first(), a);
        if r < 0 {
            -1
        } else {
            1 + r
        }
    }
}

pub proof fn lemma_addr_index(m: Seq<(IpAddress, Seq<Seq<char>>)>, a: IpAddress)
    ensures
        addr_index(m, a) == -1 ==> forall|i: int| 0 <= i < m.len() ==> (#[trigger] m[i]).0 != a,
        addr_index(m, a) >= 0 ==> {
            let k = addr_index(m, a);
            &&& k < m.len()
            &&& m[k].0 == a
            &&& forall|i: int| 0 <= i < k ==> (#[trigger] m[i]).0 != a
        },
    decreases m.len(),
{
    if m.len() > 0 && m[0].0 != a {
        let t = m.drop_first();
        lemma_addr_index(t, a);
        if addr_index(m, a) == -1 {
            assert forall|i: int| 0 <= i < m.len() implies (#[trigger] m[i]).0 != a by {
                if i > 0 {
                    assert(t[i - 1] == m[i]);
                }
            }
        } else {
            let k = addr_index(m, a);
            assert(t[k - 1] == m[k]);
            assert forall|i: int| 0 <= i < k implies (#[trigger] m[i]).0 != a by {
                if i > 0 {
                    assert(t[i - 1] == m[i]);
                }
            }
        }
    }
}

/// The record set after appending `name` under `a`: the hostname joins the
/// entry keyed by `a`, or a fresh entry is added at the end.
pub open spec fn record_added(
    m: Seq<(IpAddress, Seq<Seq<char>>)>,
    a: IpAddress,
    name: Seq<char>,
) -> Seq<(IpAddress, Seq<Seq<char>>)> {
    let k = addr_index(m, a);
    if k >= 0 {
        m.update(k, (a, m[k].1.push(name)))
    } else {
        m.push((a, seq![name]))
    }
}

pub proof fn lemma_record_added_wf(m: Seq<(IpAddress, Seq<Seq<char>>)>, a: IpAddress, name: Seq<char>)
    requires
        record_set_wf(m),
    ensures
        record_set_wf(record_added(m, a, name)),
        record_added(m, a, name).len() >= m.len(),
{
    lemma_addr_index(m, a);
    let out = record_added(m, a, name);
    let k = addr_index(m, a);
    if k >= 0 {
        assert forall|i: int, j: int| 0 <= i < j < out.len() implies (#[trigger] out[i]).0 != (
        #[trigger] out[j]).0 by {
            assert(out[i].0 == m[i].0);
            assert(out[j].0 == m[j].0);
        }
    } else {
        assert forall|i: int, j: int| 0 <= i < j < out.len() implies (#[trigger] out[i]).0 != (
        #[trigger] out[j]).0 by {
            if j < m.len() {
            } else {
                assert(out[j].0 == a);
                assert(out[i].0 == m[i].0);
            }
        }
    }
}

impl AddressRecordSet {
    pub open spec fn wf(&self) -> bool {
        record_set_wf(self@)
    }

    pub fn new() -> (r: AddressRecordSet)
        ensures
            r@ =~= Seq::<(IpAddress, Seq<Seq<char>>)>::empty(),
            r.wf(),
    {
        AddressRecordSet { entries: Vec::new() }
    }

    pub fn len(&self) -> (r: usize)
        ensures
            r == self@.len(),
    {
        self.entries.len()
    }

    pub fn addr_at(&self, i: usize) -> (r: IpAddress)
        requires
            i < self@.len(),
        ensures
            r == self@[i as int].0,
    {
        self.entries[i].0
    }

    pub fn names_at(&self, i: usize) -> (r: &Vec<String>)
        requires
            i < self@.len(),
        ensures
            r.deep_view() == self@[i as int].1,
    {
        &self.entries[i].1
    }

    /// Append `name` under `addr`, creating the entry when the address is
    /// new.
    pub fn add(&mut self, addr: IpAddress, name: String)
        ensures
            final(self)@ =~~= record_added(old(self)@, addr, name@),
            old(self).wf() ==> final(self).wf(),
    {
        proof {
            lemma_addr_index(old(self)@, addr);
            if old(self).wf() {
                lemma_record_added_wf(old(self)@, addr, name@);
            }
        }
        let n = self.entries.len();
        let mut i: usize = 0;
        while i < n
            invariant
                i <= n,
                n == self.entries@.len(),
                *self == *old(self),
                forall|k: int| 0 <= k < i ==> (#[trigger] self.entries@[k]).0 != addr,
            decreases n - i,
        {
            if self.entries[i].0 == addr {
                proof {
                    assert(self@[i as int].0 == addr);
                    assert forall|k: int| 0 <= k < i implies (#[trigger] self@[k]).0 != addr by {
                        assert(self@[k].0 == self.entries@[k].0);
                    }
                    assert(addr_index(self@, addr) == i) by {
                        lemma_addr_index_first(self@, addr, i as int);
                    }
                }
                let mut e = self.entries.remove(i);
                e.1.push(name);
                self.entries.insert(i, e);
                proof {
                    assert(self.entries@ =~= old(self).entries@.update(
                        i as int,
                        (old(self).entries@[i as int].0, e.1),
                    ));
                    assert(self@ =~~= record_added(old(self)@, addr, name@));
                }
                return ;
            }
            i = i + 1;
        }
        proof {
            assert forall|k: int| 0 <= k < self@.len() implies (#[trigger] self@[k]).0 != addr by {
                assert(self@[k].0 == self.entries@[k].0);
            }
            if addr_index(self@, addr) >= 0 {
                assert(self@[addr_index(self@, addr)].0 == addr);
            }
        }
        let mut names: Vec<String> = Vec::new();
        names.push(name);
        self.entries.push((addr, names));
        proof {
            assert(names.deep_view() =~~= seq![name@]);
            assert(self@ =~~= record_added(old(self)@, addr, name@));
        }
    }
}

/// When `m[k]` is keyed by `a` and no earlier entry is, `k` is the index the
/// lookup finds.
pub proof fn lemma_addr_index_first(m: Seq<(IpAddress, Seq<Seq<char>>)>, a: IpAddress, k: int)
    requires
        0 <= k < m.len(),
        m[k].0 == a,
        forall|i: int| 0 <= i < k ==> (#[trigger] m[i]).0 != a,
    ensures
        addr_index(m, a) == k,
    decreases m.len(),
{
    if k > 0 {
        assert(m[0].0 != a);
        assert(forall|i: int| 0 <= i < m.drop_first().len() ==> m.drop_first()[i] == m[i + 1]);
        lemma_addr_index_first(m.drop_first(), a, k - 1);
    }
}

} // verus!
