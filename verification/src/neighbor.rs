//! The eight compass directions in which a square has neighbors.

use vstd::prelude::*;

verus! {

broadcast use vstd::seq_lib::lemma_seq_contains_after_push;

/// A compass direction pointing from a square to one of its eight neighbors.
#[derive(Clone, Copy, Debug, PartialEq, Eq, Structural)]
pub enum Neighbor {
    N,
    NE,
    E,
    SE,
    S,
    SW,
    W,
    NW,
}

impl Neighbor {
    /// All eight directions, in compass order starting from north.
    pub fn all_neighbors() -> (r: Vec<Neighbor>)
        ensures
            r@ == all_neighbors_seq(),
    {
        let r: Vec<Neighbor> = vec![
            Neighbor::N,
            Neighbor::NE,
            Neighbor::E,
            Neighbor::SE,
            Neighbor::S,
            Neighbor::SW,
            Neighbor::W,
            Neighbor::NW,
        ];
        proof {
            assert(r@ =~= all_neighbors_seq());
        }
        r
    }

    /// All directions but the excluded one: the other seven, each once.
    pub fn all_except(exclude: Neighbor) -> (r: Vec<Neighbor>)
        ensures
            forall|n: Neighbor| r@.contains(n) <==> n != exclude,
            r@.no_duplicates(),
            r@.len() == 7,
    {
        let all = Neighbor::all_neighbors();
        let mut r: Vec<Neighbor> = Vec::new();
        let mut i: usize = 0;
        while i < all.len()
            invariant
                i <= all.len(),
                all@ == all_neighbors_seq(),
                forall|n: Neighbor| #[trigger] r@.contains(n)
                    <==> (all@.subrange(0, i as int).contains(n) && n != exclude),
                r@.no_duplicates(),
                r@.len() + (if all@.subrange(0, i as int).contains(exclude) {
                    1int
                } else {
                    0int
                }) == i,
            decreases all.len() - i,
        {
            let n = all[i];
            if n != exclude {
                proof {
                    assert(!r@.contains(n)) by {
                        if all@.subrange(0, i as int).contains(n) {
                            let j = choose|j: int|
                                0 <= j < i && all@.subrange(0, i as int)[j] == n;
                            assert(all_neighbors_seq()[j] == all_neighbors_seq()[i as int]);
                        }
                    }
                }
                let ghost old_r = r@;
                r.push(n);
                proof {
                    assert forall|a: int, b: int| 0 <= a < b < r@.len() implies r@[a] != r@[b] by {
                        if b == r@.len() - 1 {
                            assert(r@[a] == old_r[a]);
                            old_r.lemma_index_contains(a);
                        }
                    }
                }
            }
            proof {
                assert(all@.subrange(0, i + 1 as int) =~= all@.subrange(0, i as int).push(n));
            }
            i += 1;
        }
        proof {
            assert(all@.subrange(0, all@.len() as int) =~= all@);
            assert forall|n: Neighbor| all_neighbors_seq().contains(n) by {
                lemma_all_neighbors_complete(n);
            }
        }
        r
    }
}

/// Every direction occurs in `all_neighbors_seq`.
pub proof fn lemma_all_neighbors_complete(n: Neighbor)
    ensures
        all_neighbors_seq().contains(n),
{
    match n {
        Neighbor::N => assert(all_neighbors_seq()[0] == n),
        Neighbor::NE => assert(all_neighbors_seq()[1] == n),
        Neighbor::E => assert(all_neighbors_seq()[2] == n),
        Neighbor::SE => assert(all_neighbors_seq()[3] == n),
        Neighbor::S => assert(all_neighbors_seq()[4] == n),
        Neighbor::SW => assert(all_neighbors_seq()[5] == n),
        Neighbor::W => assert(all_neighbors_seq()[6] == n),
        Neighbor::NW => assert(all_neighbors_seq()[7] == n),
    }
}

/// The eight directions as a sequence, in the order `all_neighbors` returns them.
pub open spec fn all_neighbors_seq() -> Seq<Neighbor> {
    seq![
        Neighbor::N,
        Neighbor::NE,
        Neighbor::E,
        Neighbor::SE,
        Neighbor::S,
        Neighbor::SW,
        Neighbor::W,
        Neighbor::NW,
    ]
}

} // verus!
