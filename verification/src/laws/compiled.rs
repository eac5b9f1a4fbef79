//! Compiling rules has one result.
use vstd::prelude::*;
use crate::event::KeyCode;
use crate::mapping::MappingView;
use crate::model::MachineView;
use crate::util::strictly_sorted;

verus! {

/// Two strictly sorted sequences that hold the same keys are the same sequence.
pub proof fn lemma_strictly_sorted_unique(x: Seq<KeyCode>, y: Seq<KeyCode>)
    requires
        strictly_sorted(x),
        strictly_sorted(y),
        x.to_set() == y.to_set(),
    ensures
        x == y,
    decreases x.len(),
{
    if x.len() == 0 {
        if y.len() > 0 {
            assert(y.to_set().contains(y[0]));
            assert(x.contains(y[0]));
        }
        assert(x =~= y);
    } else {
        let top = x.last();
        assert(x.to_set().contains(x[x.len() - 1]));
        assert(y.contains(top));
        let at = choose|at: int| 0 <= at < y.len() && y[at] == top;
        assert(at == y.len() - 1) by {
            if at < y.len() - 1 {
                let more = y[y.len() - 1];
                assert(y[at] < more);
                assert(y.to_set().contains(more));
                assert(x.contains(more));
                let j = choose|j: int| 0 <= j < x.len() && x[j] == more;
                if j < x.len() - 1 {
                    assert(x[j] < x[x.len() - 1]);
                }
            }
        }
        let xs = x.drop_last();
        let ys = y.drop_last();
        assert(strictly_sorted(xs)) by {
            assert forall|i: int, j: int| 0 <= i < j < xs.len() implies xs[i] < xs[j] by {
                assert(x[i] < x[j]);
            }
        }
        assert(strictly_sorted(ys)) by {
            assert forall|i: int, j: int| 0 <= i < j < ys.len() implies ys[i] < ys[j] by {
                assert(y[i] < y[j]);
            }
        }
        assert(xs.to_set() =~= ys.to_set()) by {
            assert forall|k: KeyCode| xs.to_set().contains(k) == ys.to_set().contains(k) by {
                if xs.contains(k) {
                    let i = choose|i: int| 0 <= i < xs.len() && xs[i] == k;
                    assert(x[i] == k);
                    assert(x[i] < x[x.len() - 1]);
                    assert(x.to_set().contains(k));
                    assert(y.contains(k));
                    let j = choose|j: int| 0 <= j < y.len() && y[j] == k;
                    assert(ys[j] == k);
                }
                if ys.contains(k) {
                    let i = choose|i: int| 0 <= i < ys.len() && ys[i] == k;
                    assert(y[i] == k);
                    assert(y[i] < y[y.len() - 1]);
                    assert(y.to_set().contains(k));
                    assert(x.contains(k));
                    let j = choose|j: int| 0 <= j < x.len() && x[j] == k;
                    assert(xs[j] == k);
                }
            }
        }
        lemma_strictly_sorted_unique(xs, ys);
        assert(x =~= xs.push(top));
        assert(y =~= ys.push(top));
    }
}

impl MachineView {
    /// In two machines compiled from the same rules, the guard of a rule lists the same
    /// keys.
    proof fn lemma_compiled_same_keys(self, other: MachineView, rules: Seq<MappingView>, r: int)
        requires
            self.compiled_from(rules),
            other.compiled_from(rules),
            0 <= r < rules.len(),
        ensures
            self.guards[self.rules[r].guard].cond == other.guards[other.rules[r].guard].cond,
            self.guards[self.rules[r].guard].except == other.guards[other.rules[r].guard].except,
    {
        let a = self.guards[self.rules[r].guard];
        let b = other.guards[other.rules[r].guard];
        lemma_strictly_sorted_unique(a.cond, b.cond);
        lemma_strictly_sorted_unique(a.except, b.except);
    }

    /// In two machines compiled from the same rules, every rule has the guard at the
    /// same place.
    proof fn lemma_compiled_same_guard(self, other: MachineView, rules: Seq<MappingView>, r: int)
        requires
            self.compiled_from(rules),
            other.compiled_from(rules),
            0 <= r < rules.len(),
        ensures
            self.rules[r].guard == other.rules[r].guard,
        decreases r,
    {
        let ga = self.rules[r].guard;
        let gb = other.rules[r].guard;
        self.lemma_compiled_same_keys(other, rules, r);
        if ga < gb {
            assert(other.needed_before(r, ga));
            let q = choose|q: int| 0 <= q < r && (#[trigger] other.rules[q]).guard == ga;
            self.lemma_compiled_same_guard(other, rules, q);
            self.lemma_compiled_same_keys(other, rules, q);
            assert(other.guards[ga].cond == other.guards[gb].cond);
            assert(other.guards[ga].except == other.guards[gb].except);
        } else if gb < ga {
            assert(self.needed_before(r, gb));
            let q = choose|q: int| 0 <= q < r && (#[trigger] self.rules[q]).guard == gb;
            self.lemma_compiled_same_guard(other, rules, q);
            self.lemma_compiled_same_keys(other, rules, q);
            assert(self.guards[gb].cond == self.guards[ga].cond);
            assert(self.guards[gb].except == self.guards[ga].except);
        }
    }

    /// Compiling rules has one result: two machines compiled from the same rules are
    /// the same machine.
    pub proof fn lemma_compiled_unique(self, other: MachineView, rules: Seq<MappingView>)
        requires
            self.compiled_from(rules),
            other.compiled_from(rules),
        ensures
            self == other,
    {
        assert forall|r: int| 0 <= r < rules.len() implies self.rules[r] == other.rules[r] by {
            self.lemma_compiled_same_guard(other, rules, r);
        }
        assert(self.rules =~= other.rules);
        assert(self.guards.len() <= other.guards.len()) by {
            if self.guards.len() > 0 {
                let g = self.guards.len() - 1;
                assert(self.guards[g].fresh());
                let r = choose|r: int|
                    0 <= r < self.rules.len() && (#[trigger] self.rules[r]).guard == g;
                assert(other.rules[r].guard == g);
            }
        }
        assert(other.guards.len() <= self.guards.len()) by {
            if other.guards.len() > 0 {
                let g = other.guards.len() - 1;
                assert(other.guards[g].fresh());
                let r = choose|r: int|
                    0 <= r < other.rules.len() && (#[trigger] other.rules[r]).guard == g;
                assert(self.rules[r].guard == g);
            }
        }
        assert forall|g: int| 0 <= g < self.guards.len() implies self.guards[g]
            == other.guards[g] by {
            let guard = self.guards[g];
            let r = choose|r: int|
                0 <= r < self.rules.len() && (#[trigger] self.rules[r]).guard == g;
            self.lemma_compiled_same_keys(other, rules, r);
            assert(other.rules[r].guard == g);
            assert(other.guards[g].fresh());
            assert(guard.fresh());
            assert(guard.bits =~= other.guards[g].bits);
        }
        assert(self.guards =~= other.guards);
    }
}

} // verus!
