//! One entry of the index: the states of a single DMI file.
//!
//! An entry holds the unique state names of one file in strict ascending byte
//! order. It comes in two forms, chosen once per run: the array form, emitted
//! as a JSON array of names, and the associative form, emitted as a JSON
//! object mapping each name to `true`.

use vstd::prelude::*;
use crate::text::bytes_eq;
use crate::text::lemma_lex_total;
use crate::text::lemma_lex_trans;
use crate::text::lex_less;
use crate::text::lex_lt;
use crate::text::seq_views;
use crate::text::sorted_strict;

verus! {

/// The states of one DMI file, unique and sorted, in one of the two output
/// forms.
pub enum IconStates {
    Array(Vec<Vec<u8>>),
    Assoc(Vec<Vec<u8>>),
}

impl IconStates {
    /// The names held, in emission order.
    pub open spec fn names(&self) -> Seq<Seq<u8>> {
        match self {
            IconStates::Array(v) => seq_views(v@),
            IconStates::Assoc(v) => seq_views(v@),
        }
    }

    pub open spec fn is_assoc(&self) -> bool {
        self matches IconStates::Assoc(_)
    }

    pub open spec fn wf(&self) -> bool {
        sorted_strict(self.names())
    }

    /// Reshapes the states extracted from one file into an entry of the
    /// chosen form: duplicates collapse and the names end up sorted.
    pub fn new(states: Vec<Vec<u8>>, assoc: bool) -> (r: IconStates)
        ensures
            r.wf(),
            r.is_assoc() == assoc,
            r.names().to_set() == seq_views(states@).to_set(),
    {
        let ghost total = seq_views(states@);
        let mut rest = states;
        let mut sorted: Vec<Vec<u8>> = Vec::new();
        proof {
            assert(seq_views(sorted@) =~= Seq::<Seq<u8>>::empty());
            assert(seq_views(sorted@).to_set().union(seq_views(rest@).to_set())
                =~= seq_views(rest@).to_set());
        }
        while rest.len() > 0
            invariant
                sorted_strict(seq_views(sorted@)),
                seq_views(sorted@).to_set().union(seq_views(rest@).to_set()) == total.to_set(),
            decreases rest.len(),
        {
            let ghost r0 = seq_views(rest@);
            let x = rest.pop().unwrap();
            proof {
                assert(seq_views(rest@) =~= r0.drop_last());
                lemma_set_drop_last(r0);
            }
            sorted_insert(&mut sorted, x);
            proof {
                assert(seq_views(sorted@).to_set().union(seq_views(rest@).to_set()) =~= total
                    .to_set());
            }
        }
        proof {
            assert(seq_views(rest@) =~= Seq::<Seq<u8>>::empty());
            assert(seq_views(sorted@).to_set().union(seq_views(rest@).to_set()) =~= seq_views(
                sorted@,
            ).to_set());
        }
        if assoc {
            IconStates::Assoc(sorted)
        } else {
            IconStates::Array(sorted)
        }
    }

    /// The number of unique states of this entry.
    pub fn len(&self) -> (n: usize)
        ensures
            n == self.names().len(),
    {
        match self {
            IconStates::Array(v) => v.len(),
            IconStates::Assoc(v) => v.len(),
        }
    }
}

/// A nonempty sequence holds exactly its last element and the elements before
/// it.
pub proof fn lemma_set_drop_last(s: Seq<Seq<u8>>)
    requires
        s.len() > 0,
    ensures
        s.to_set() == s.drop_last().to_set().insert(s.last()),
{
    let d = s.drop_last();
    assert forall|y: Seq<u8>| s.to_set().contains(y) implies d.to_set().insert(
        s.last(),
    ).contains(y) by {
        let k = choose|k: int| 0 <= k < s.len() && s[k] == y;
        if k < s.len() - 1 {
            assert(d[k] == y);
            assert(d.contains(y));
        }
    }
    assert forall|y: Seq<u8>| d.to_set().insert(s.last()).contains(y) implies s.to_set().contains(
        y,
    ) by {
        if y == s.last() {
            assert(s[s.len() - 1] == y);
        } else {
            let k = choose|k: int| 0 <= k < d.len() && d[k] == y;
            assert(s[k] == y);
        }
    }
    assert(s.to_set() =~= d.to_set().insert(s.last()));
}

/// Inserts a byte string into a sorted vector, keeping it sorted and
/// dropping the insertion when the string is already present.
pub fn sorted_insert(v: &mut Vec<Vec<u8>>, x: Vec<u8>)
    requires
        sorted_strict(seq_views(old(v)@)),
    ensures
        sorted_strict(seq_views(final(v)@)),
        seq_views(final(v)@).to_set() == seq_views(old(v)@).to_set().insert(x@),
{
    let ghost s = seq_views(v@);
    let ghost xv = x@;
    let mut i: usize = 0;
    while i < v.len() && lex_less(&v[i], &x)
        invariant
            i <= v@.len(),
            v@ == old(v)@,
            forall|j: int| 0 <= j < i ==> lex_lt(#[trigger] seq_views(v@)[j], x@),
        decreases v@.len() - i,
    {
        i += 1;
    }
    if i < v.len() && bytes_eq(&v[i], &x) {
        proof {
            assert(s[i as int] == xv);
            assert(s.contains(xv));
            assert(s.to_set().insert(xv) =~= s.to_set());
        }
        return ;
    }
    proof {
        if i < v@.len() {
            lemma_lex_total(xv, s[i as int]);
            assert(lex_lt(xv, s[i as int]));
        }
    }
    v.insert(i, x);
    proof {
        let s2 = seq_views(v@);
        assert(s2 =~= s.insert(i as int, xv));
        s.insert_ensures(i as int, xv);
        assert forall|p: int, q: int| 0 <= p < q < s2.len() implies lex_lt(s2[p], s2[q]) by {
            if q < i {
                assert(s2[p] == s[p] && s2[q] == s[q]);
            } else if p < i && q == i {
                assert(s2[p] == s[p] && s2[q] == xv);
            } else if p < i && q > i {
                assert(s2[p] == s[p] && s2[q] == s[q - 1]);
                if i as int == q - 1 {
                    // s2[q] == s[i], and lex_lt(s[p], x) with lex_lt(x, s[i])
                    lemma_lex_trans(s[p], xv, s[i as int]);
                } else {
                    assert(lex_lt(s[p], s[q - 1]));
                }
            } else if p == i {
                assert(s2[p] == xv && s2[q] == s[q - 1]);
                if q - 1 == i {
                    assert(lex_lt(xv, s[i as int]));
                } else {
                    lemma_lex_trans(xv, s[i as int], s[q - 1]);
                }
            } else {
                assert(s2[p] == s[p - 1] && s2[q] == s[q - 1]);
            }
        }
        assert forall|y: Seq<u8>| s2.to_set().contains(y) implies s.to_set().insert(xv).contains(
            y,
        ) by {
            let k = choose|k: int| 0 <= k < s2.len() && s2[k] == y;
            if k < i {
                assert(s[k] == y);
            } else if k == i {
            } else {
                assert(s[k - 1] == y);
            }
        }
        assert forall|y: Seq<u8>| s.to_set().insert(xv).contains(y) implies s2.to_set().contains(
            y,
        ) by {
            if y == xv {
                assert(s2[i as int] == y);
            } else {
                let k = choose|k: int| 0 <= k < s.len() && s[k] == y;
                if k < i {
                    assert(s2[k] == y);
                } else {
                    assert(s2[k + 1] == y);
                }
            }
        }
        assert(s2.to_set() =~= s.to_set().insert(xv));
    }
}

} // verus!
