//! Round-robin selection across a group's servers: a per-group rotation
//! counter picks the next server, independent of health or load.

use vstd::prelude::*;

use crate::config::Group;

verus! {

/// The balancer's resolved choice for one request: one server address and
/// the group's timeout. Transient: never stored.
pub struct Instance {
    pub url: String,
    pub timeout_secs: u64,
}

/// Per-group rotation counters, created on first use and kept for the
/// process lifetime.
pub struct Balancer {
    counters: Vec<(String, usize)>,
}

/// The counter a group name holds: 0 until its first rotation.
pub open spec fn spec_count(cs: Seq<(Seq<char>, usize)>, name: Seq<char>) -> usize
    decreases cs.len(),
{
    if cs.len() == 0 {
        0
    } else if cs.first().0 == name {
        cs.first().1
    } else {
        spec_count(cs.drop_first(), name)
    }
}

/// How a counter advances: by one, except that the representable maximum
/// wraps to 1 (never to 0, which marks first use).
pub open spec fn next_count(c: usize) -> usize {
    if c == usize::MAX {
        1
    } else {
        (c + 1) as usize
    }
}

proof fn lemma_count_at(cs: Seq<(Seq<char>, usize)>, name: Seq<char>, i: int)
    requires
        0 <= i < cs.len(),
        forall|j: int| 0 <= j < i ==> (#[trigger] cs[j]).0 != name,
        cs[i].0 == name,
    ensures
        spec_count(cs, name) == cs[i].1,
    decreases i,
{
    if i > 0 {
        lemma_count_at(cs.drop_first(), name, i - 1);
    }
}

proof fn lemma_count_absent(cs: Seq<(Seq<char>, usize)>, name: Seq<char>)
    requires
        forall|j: int| 0 <= j < cs.len() ==> (#[trigger] cs[j]).0 != name,
    ensures
        spec_count(cs, name) == 0,
    decreases cs.len(),
{
    if cs.len() > 0 {
        lemma_count_absent(cs.drop_first(), name);
    }
}

/// Two counter tables that differ only in the value at one slot hold the
/// same counter for every other name.
proof fn lemma_count_agree(
    a: Seq<(Seq<char>, usize)>,
    b: Seq<(Seq<char>, usize)>,
    i: int,
    n: Seq<char>,
)
    requires
        a.len() == b.len(),
        0 <= i < a.len(),
        forall|j: int| 0 <= j < a.len() && j != i ==> a[j] == b[j],
        a[i].0 == b[i].0,
        n != a[i].0,
    ensures
        spec_count(a, n) == spec_count(b, n),
    decreases a.len(),
{
    if a.len() > 0 {
        if i == 0 {
            assert(a.first().0 == b.first().0);
            if a.first().0 != n {
                assert(forall|j: int|
                    0 <= j < a.drop_first().len() ==> #[trigger] a.drop_first()[j]
                        == b.drop_first()[j]);
                assert(a.drop_first() =~= b.drop_first());
            }
        } else {
            assert(a.first() == b.first());
            lemma_count_agree(a.drop_first(), b.drop_first(), i - 1, n);
        }
    }
}

proof fn lemma_count_push(cs: Seq<(Seq<char>, usize)>, e: (Seq<char>, usize), n: Seq<char>)
    requires
        e.0 != n,
    ensures
        spec_count(cs.push(e), n) == spec_count(cs, n),
    decreases cs.len(),
{
    if cs.len() == 0 {
        assert(cs.push(e).first().0 == e.0);
        assert(cs.push(e).drop_first() =~= Seq::<(Seq<char>, usize)>::empty());
        assert(spec_count(cs.push(e), n) == spec_count(cs.push(e).drop_first(), n));
        assert(spec_count(cs, n) == 0);
    } else {
        assert(cs.push(e).first() == cs.first());
        assert(cs.push(e).drop_first() =~= cs.drop_first().push(e));
        lemma_count_push(cs.drop_first(), e, n);
    }
}

impl View for Balancer {
    type V = Seq<(Seq<char>, usize)>;

    closed spec fn view(&self) -> Seq<(Seq<char>, usize)> {
        self.counters@.map_values(|c: (String, usize)| (c.0@, c.1))
    }
}

impl Balancer {
    /// Well-formed: one counter per group name.
    pub open spec fn wf(&self) -> bool {
        forall|i: int, j: int| 0 <= i < j < self@.len() ==> self@[i].0 != self@[j].0
    }

    pub fn new() -> (r: Self)
        ensures
            r.wf(),
            r@ == Seq::<(Seq<char>, usize)>::empty(),
    {
        Balancer { counters: Vec::new() }
    }

    /// A balancer whose counters start from the given values: the state a
    /// running process holds after earlier rotations.
    pub fn with_counts(counts: Vec<(String, usize)>) -> (r: Self)
        requires
            forall|i: int, j: int|
                0 <= i < j < counts@.len() ==> (#[trigger] counts@[i]).0@ != (
                #[trigger] counts@[j]).0@,
        ensures
            r.wf(),
            r@ == counts@.map_values(|c: (String, usize)| (c.0@, c.1)),
    {
        Balancer { counters: counts }
    }

    /// The counter value this rotation uses, advancing the stored counter
    /// behind it: a fresh group starts at 0.
    fn current_count(&mut self, name: &String) -> (r: usize)
        requires
            old(self).wf(),
        ensures
            final(self).wf(),
            r == spec_count(old(self)@, name@),
            spec_count(final(self)@, name@) == next_count(r),
            forall|n: Seq<char>|
                n != name@ ==> spec_count(final(self)@, n) == spec_count(old(self)@, n),
    {
        let ghost cs0 = self@;
        let mut i: usize = 0;
        while i < self.counters.len()
            invariant
                i <= self.counters@.len(),
                old(self).wf(),
                self@ == cs0,
                *self == *old(self),
                self@.len() == self.counters@.len(),
                forall|j: int| 0 <= j < i ==> (#[trigger] self@[j]).0 != name@,
            decreases self.counters@.len() - i,
        {
            proof {
                assert(self@[i as int] == (self.counters@[i as int].0@, self.counters@[i as int].1));
            }
            if self.counters[i].0 == *name {
                let v = self.counters[i].1;
                let nv = if v == usize::MAX {
                    1
                } else {
                    v + 1
                };
                self.counters[i] = (name.clone(), nv);
                proof {
                    assert(self@ =~= cs0.update(i as int, (name@, nv)));
                    assert forall|p: int, q: int| 0 <= p < q < self@.len() implies self@[p].0
                        != self@[q].0 by {
                        assert(self@[p].0 == cs0[p].0);
                        assert(self@[q].0 == cs0[q].0);
                        assert(old(self).wf());
                        assert(cs0[p].0 != cs0[q].0);
                    }
                    lemma_count_at(cs0, name@, i as int);
                    lemma_count_at(self@, name@, i as int);
                    assert forall|n: Seq<char>| n != name@ implies spec_count(self@, n)
                        == spec_count(cs0, n) by {
                        lemma_count_agree(cs0, self@, i as int, n);
                    }
                }
                return v;
            }
            i = i + 1;
        }
        proof {
            lemma_count_absent(cs0, name@);
        }
        let ghost pre = self@;
        self.counters.push((name.clone(), 1));
        proof {
            assert(self@ =~= pre.push((name@, 1)));
            lemma_count_at(self@, name@, pre.len() as int);
            assert forall|n: Seq<char>| n != name@ implies spec_count(self@, n) == spec_count(
                pre,
                n,
            ) by {
                lemma_count_push(pre, (name@, 1), n);
            }
        }
        0
    }

    /// One rotation: the counter the group held picks the server (counter
    /// modulo server count), and the stored counter advances, wrapping
    /// from the maximum to 1.
    pub fn balance(&mut self, group: &Group) -> (r: Instance)
        requires
            old(self).wf(),
            group.servers@.len() > 0,
        ensures
            final(self).wf(),
            r.timeout_secs == group.timeout_secs,
            r.url == group.servers@[spec_count(old(self)@, group.name@) as int % group.servers@.len() as int],
            spec_count(final(self)@, group.name@) == next_count(spec_count(old(self)@, group.name@)),
            forall|n: Seq<char>|
                n != group.name@ ==> spec_count(final(self)@, n) == spec_count(old(self)@, n),
    {
        let count = self.current_count(&group.name);
        let len = group.servers.len();
        let idx = count % len;
        let url = group.servers[idx].clone();
        Instance { url, timeout_secs: group.timeout_secs }
    }
}

} // verus!
