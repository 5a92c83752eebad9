//! Response headers: kept in the order they arrived, duplicates included,
//! and looked up without regard to ASCII case.
use vstd::prelude::*;
use crate::bytes::{eq_ignore_case, lower_bytes};

verus! {

/// One header line, split at its first colon.
pub struct Header {
    pub name: Vec<u8>,
    pub value: Vec<u8>,
}

impl View for Header {
    type V = (Seq<u8>, Seq<u8>);

    open spec fn view(&self) -> (Seq<u8>, Seq<u8>) {
        (self.name@, self.value@)
    }
}

/// Header lines in arrival order.
pub struct HeaderMap {
    pub entries: Vec<Header>,
}

impl View for HeaderMap {
    type V = Seq<(Seq<u8>, Seq<u8>)>;

    open spec fn view(&self) -> Seq<(Seq<u8>, Seq<u8>)> {
        self.entries@.map_values(|h: Header| h@)
    }
}

/// The values of every entry of `h` whose name equals `name` up to ASCII
/// case, in the order of `h`.
pub open spec fn values_named(h: Seq<(Seq<u8>, Seq<u8>)>, name: Seq<u8>) -> Seq<Seq<u8>>
    decreases h.len(),
{
    if h.len() == 0 {
        Seq::empty()
    } else {
        let rest = values_named(h.drop_last(), name);
        if lower_bytes(h.last().0) == lower_bytes(name) {
            rest.push(h.last().1)
        } else {
            rest
        }
    }
}

/// Lookup goes by the ASCII lower case of a name only: two names that fold
/// to the same bytes find the same values, in the same order.
pub proof fn lemma_lookup_ignores_case(h: Seq<(Seq<u8>, Seq<u8>)>, a: Seq<u8>, b: Seq<u8>)
    requires
        lower_bytes(a) == lower_bytes(b),
    ensures
        values_named(h, a) == values_named(h, b),
    decreases h.len(),
{
    if h.len() > 0 {
        lemma_lookup_ignores_case(h.drop_last(), a, b);
    }
}

/// Header lists that differ only in the ASCII case of their names answer
/// every lookup alike.
pub proof fn lemma_case_blind_lists(
    h1: Seq<(Seq<u8>, Seq<u8>)>,
    h2: Seq<(Seq<u8>, Seq<u8>)>,
    name: Seq<u8>,
)
    requires
        h1.len() == h2.len(),
        forall|i: int|
            0 <= i < h1.len() ==> lower_bytes(#[trigger] h1[i].0) == lower_bytes(h2[i].0) && h1[i].1
                == h2[i].1,
    ensures
        values_named(h1, name) == values_named(h2, name),
    decreases h1.len(),
{
    if h1.len() > 0 {
        let p1 = h1.drop_last();
        let p2 = h2.drop_last();
        assert forall|i: int| 0 <= i < p1.len() implies lower_bytes(#[trigger] p1[i].0) == lower_bytes(
            p2[i].0,
        ) && p1[i].1 == p2[i].1 by {
            assert(p1[i] == h1[i]);
            assert(p2[i] == h2[i]);
        }
        lemma_case_blind_lists(p1, p2, name);
        assert(lower_bytes(h1[h1.len() - 1].0) == lower_bytes(h2[h2.len() - 1].0));
    }
}

/// Adding an entry keeps every earlier value where it was and, when the
/// names match, puts the new value last.
pub proof fn lemma_push_keeps_order(
    h: Seq<(Seq<u8>, Seq<u8>)>,
    e: (Seq<u8>, Seq<u8>),
    name: Seq<u8>,
)
    ensures
        values_named(h.push(e), name) == if lower_bytes(e.0) == lower_bytes(name) {
            values_named(h, name).push(e.1)
        } else {
            values_named(h, name)
        },
{
    assert(h.push(e).drop_last() =~= h);
}

impl HeaderMap {
    pub fn new() -> (r: HeaderMap)
        ensures
            r@ == Seq::<(Seq<u8>, Seq<u8>)>::empty(),
    {
        let r = HeaderMap { entries: Vec::new() };
        proof {
            assert(r@ =~= Seq::<(Seq<u8>, Seq<u8>)>::empty());
        }
        r
    }

    /// Appends one entry after all the others.
    pub fn push(&mut self, name: Vec<u8>, value: Vec<u8>)
        ensures
            final(self)@ == old(self)@.push((name@, value@)),
    {
        let h = Header { name, value };
        self.entries.push(h);
        proof {
            assert(final(self)@ =~= old(self)@.push((name@, value@)));
        }
    }

    pub fn len(&self) -> (r: usize)
        ensures
            r == self@.len(),
    {
        self.entries.len()
    }

    /// Every value whose name equals `name` up to ASCII case, in arrival order.
    pub fn get_all(&self, name: &[u8]) -> (r: Vec<Vec<u8>>)
        ensures
            r@.map_values(|v: Vec<u8>| v@) == values_named(self@, name@),
    {
        let mut r: Vec<Vec<u8>> = Vec::new();
        let mut i: usize = 0;
        while i < self.entries.len()
            invariant
                i <= self@.len(),
                r@.map_values(|v: Vec<u8>| v@) == values_named(self@.subrange(0, i as int), name@),
            decreases self@.len() - i,
        {
            let ghost prev = r@;
            let e = &self.entries[i];
            let hit = eq_ignore_case(e.name.as_slice(), name);
            if hit {
                r.push(e.value.clone());
            }
            proof {
                let sub = self@.subrange(0, i + 1);
                assert(sub.drop_last() =~= self@.subrange(0, i as int));
                assert(sub.last() == self@[i as int]);
                assert(self@[i as int] == self.entries@[i as int]@);
                if hit {
                    assert(r@.map_values(|v: Vec<u8>| v@) =~= prev.map_values(|v: Vec<u8>| v@).push(
                        self.entries@[i as int].value@,
                    ));
                } else {
                    assert(r@ == prev);
                }
            }
            i = i + 1;
        }
        proof {
            assert(self@.subrange(0, self@.len() as int) =~= self@);
        }
        r
    }

    /// The first value whose name equals `name` up to ASCII case.
    pub fn get(&self, name: &[u8]) -> (r: Option<Vec<u8>>)
        ensures
            match r {
                Some(v) => values_named(self@, name@).len() > 0 && v@ == values_named(
                    self@,
                    name@,
                )[0],
                None => values_named(self@, name@).len() == 0,
            },
    {
        let all = self.get_all(name);
        if all.len() == 0 {
            None
        } else {
            proof {
                assert(all@.map_values(|v: Vec<u8>| v@)[0] == all@[0]@);
            }
            Some(all[0].clone())
        }
    }
}

} // verus!
