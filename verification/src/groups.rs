//! The `Groups` accumulator: named signal lists in first-appearance order,
//! where re-using a name replaces that name's signals in place.

use vstd::prelude::*;

use crate::types::GroupEntry;
use crate::types::Groups;
use crate::types::Sig;
use crate::types::SigV;
use crate::types::sig_views;

verus! {

/// `gs` with `name` bound to `sigs`: the first entry carrying `name` is
/// replaced in place; a fresh name is appended.
pub open spec fn groups_insert(
    gs: Seq<(Seq<char>, Seq<SigV>)>,
    name: Seq<char>,
    sigs: Seq<SigV>,
) -> Seq<(Seq<char>, Seq<SigV>)>
    decreases gs.len(),
{
    if gs.len() == 0 {
        seq![(name, sigs)]
    } else if gs[0].0 == name {
        seq![(name, sigs)] + gs.drop_first()
    } else {
        seq![gs[0]] + groups_insert(gs.drop_first(), name, sigs)
    }
}

proof fn lemma_groups_insert_found(
    gs: Seq<(Seq<char>, Seq<SigV>)>,
    name: Seq<char>,
    sigs: Seq<SigV>,
    k: int,
)
    requires
        0 <= k < gs.len(),
        forall|j: int| 0 <= j < k ==> (#[trigger] gs[j]).0 != name,
        gs[k].0 == name,
    ensures
        groups_insert(gs, name, sigs) =~= gs.update(k, (name, sigs)),
    decreases k,
{
    if k == 0 {
        assert(seq![(name, sigs)] + gs.drop_first() =~= gs.update(0, (name, sigs)));
    } else {
        assert(gs[0].0 != name);
        lemma_groups_insert_found(gs.drop_first(), name, sigs, k - 1);
        assert(seq![gs[0]] + gs.drop_first().update(k - 1, (name, sigs)) =~= gs.update(
            k,
            (name, sigs),
        ));
    }
}

proof fn lemma_groups_insert_missing(
    gs: Seq<(Seq<char>, Seq<SigV>)>,
    name: Seq<char>,
    sigs: Seq<SigV>,
)
    requires
        forall|j: int| 0 <= j < gs.len() ==> (#[trigger] gs[j]).0 != name,
    ensures
        groups_insert(gs, name, sigs) =~= gs.push((name, sigs)),
    decreases gs.len(),
{
    if gs.len() > 0 {
        assert(gs[0].0 != name);
        lemma_groups_insert_missing(gs.drop_first(), name, sigs);
        assert(seq![gs[0]] + gs.drop_first().push((name, sigs)) =~= gs.push((name, sigs)));
    }
}

impl Groups {
    /// An empty group table.
    pub fn new() -> (r: Groups)
        ensures
            r@ == Seq::<(Seq<char>, Seq<SigV>)>::empty(),
    {
        let r = Groups { sig_set: Vec::new() };
        proof {
            assert(r@ =~= Seq::<(Seq<char>, Seq<SigV>)>::empty());
        }
        r
    }

    /// Bind `name` to `sigs`, replacing the signals of an already-known name
    /// in place and appending a fresh name.
    pub fn insert_signals(&mut self, name: String, sigs: Vec<Sig>)
        ensures
            final(self)@ == groups_insert(old(self)@, name@, sig_views(sigs@)),
    {
        let ghost gv = self@;
        let ghost nv = name@;
        let ghost sv = sig_views(sigs@);
        let n = self.sig_set.len();
        let mut k: usize = 0;
        while k < n
            invariant
                k <= n == self.sig_set@.len(),
                self@ == gv,
                gv == old(self)@,
                nv == name@,
                sv == sig_views(sigs@),
                forall|j: int| 0 <= j < k ==> (#[trigger] gv[j]).0 != nv,
            decreases n - k,
        {
            proof {
                assert(gv[k as int].0 == self.sig_set@[k as int].name@);
            }
            if self.sig_set[k].name == name {
                let ghost vpre = self.sig_set@;
                let entry = GroupEntry { name, sigs };
                proof {
                    assert(entry.name@ == nv);
                    assert(sig_views(entry.sigs@) == sv);
                }
                self.sig_set.set(k, entry);
                proof {
                    lemma_groups_insert_found(gv, nv, sv, k as int);
                    let target = gv.update(k as int, (nv, sv));
                    assert forall|j: int| 0 <= j < self@.len() implies self@[j] == target[j] by {
                        if j == k as int {
                            assert(self.sig_set@[j].name@ == nv);
                            assert(sig_views(self.sig_set@[j].sigs@) == sv);
                        } else {
                            assert(self.sig_set@[j] == vpre[j]);
                        }
                    }
                    assert(self@ =~= target);
                }
                return ;
            }
            k = k + 1;
        }
        let ghost vpre = self.sig_set@;
        let entry = GroupEntry { name, sigs };
        proof {
            assert(entry.name@ == nv);
            assert(sig_views(entry.sigs@) == sv);
        }
        self.sig_set.push(entry);
        proof {
            lemma_groups_insert_missing(gv, nv, sv);
            let target = gv.push((nv, sv));
            assert forall|j: int| 0 <= j < self@.len() implies self@[j] == target[j] by {
                if j == vpre.len() as int {
                    assert(self.sig_set@[j].name@ == nv);
                    assert(sig_views(self.sig_set@[j].sigs@) == sv);
                } else {
                    assert(self.sig_set@[j] == vpre[j]);
                }
            }
            assert(self@ =~= target);
        }
    }
}

} // verus!
