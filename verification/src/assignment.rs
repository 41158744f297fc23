use vstd::prelude::*;

verus! {

/// The bookkeeping of an auction that assigns `n` bidders to `n` objects one to one.
/// Bidders wait on a stack; the bidder taken from it bids for one object, which it wins,
/// and the object's previous owner goes back on the stack. How a bidder chooses its object
/// is left to the caller.
pub struct Auction {
    owners: Vec<Option<usize>>,
    assignments: Vec<Option<usize>>,
    unassigned: Vec<usize>,
    bidder: Option<usize>,
}

impl Auction {
    /// The number of bidders, which is also the number of objects.
    pub closed spec fn size(&self) -> nat {
        self.assignments@.len()
    }

    /// For each object, the bidder that holds it.
    pub closed spec fn owner_of(&self) -> Seq<Option<usize>> {
        self.owners@
    }

    /// For each bidder, the object it holds.
    pub closed spec fn assignment_of(&self) -> Seq<Option<usize>> {
        self.assignments@
    }

    /// The bidders waiting for their turn; the last one bids next.
    pub closed spec fn waiting(&self) -> Seq<usize> {
        self.unassigned@
    }

    /// The bidder taken from the stack that has not bid yet.
    pub closed spec fn current(&self) -> Option<usize> {
        self.bidder
    }

    /// The holdings form a one-to-one matching, and every bidder without an object is
    /// waiting exactly once or is the current bidder.
    pub open spec fn wf(&self) -> bool {
        let n = self.size();
        let owners = self.owner_of();
        let assignments = self.assignment_of();
        let waiting = self.waiting();
        &&& owners.len() == n
        &&& forall|b: int|
            0 <= b < n ==> match #[trigger] assignments[b] {
                Some(o) => o < n && owners[o as int] == Some(b as usize),
                None => true,
            }
        &&& forall|o: int|
            0 <= o < n ==> match #[trigger] owners[o] {
                Some(b) => b < n && assignments[b as int] == Some(o as usize),
                None => true,
            }
        &&& forall|i: int|
            0 <= i < waiting.len() ==> #[trigger] waiting[i] < n && assignments[waiting[i] as int]
                is None && self.current() != Some(waiting[i])
        &&& forall|i: int, j: int| 0 <= i < j < waiting.len() ==> waiting[i] != waiting[j]
        &&& forall|b: int|
            0 <= b < n && #[trigger] assignments[b] is None ==> waiting.contains(b as usize)
                || self.current() == Some(b as usize)
        &&& match self.current() {
            Some(b) => b < n && assignments[b as int] is None,
            None => true,
        }
    }

    /// An auction of `n` bidders and `n` objects in which nothing is held yet and the
    /// bidders wait in the order `n - 1, ..., 1, 0`, so that bidder 0 bids first.
    pub fn new(n: usize) -> (auction: Self)
        ensures
            auction.wf(),
            auction.size() == n,
            auction.owner_of() == Seq::new(n as nat, |i: int| None::<usize>),
            auction.assignment_of() == Seq::new(n as nat, |i: int| None::<usize>),
            auction.waiting() == Seq::new(n as nat, |i: int| (n - 1 - i) as usize),
            auction.current() is None,
    {
        let mut owners: Vec<Option<usize>> = Vec::new();
        let mut assignments: Vec<Option<usize>> = Vec::new();
        let mut unassigned: Vec<usize> = Vec::new();
        let mut i: usize = 0;
        while i < n
            invariant
                i <= n,
                owners@ == Seq::new(i as nat, |k: int| None::<usize>),
                assignments@ == Seq::new(i as nat, |k: int| None::<usize>),
                unassigned@ == Seq::new(i as nat, |k: int| (n - 1 - k) as usize),
            decreases n - i,
        {
            owners.push(None);
            assignments.push(None);
            unassigned.push(n - 1 - i);
            i = i + 1;
            proof {
                assert(owners@ =~= Seq::new(i as nat, |k: int| None::<usize>));
                assert(assignments@ =~= Seq::new(i as nat, |k: int| None::<usize>));
                assert(unassigned@ =~= Seq::new(i as nat, |k: int| (n - 1 - k) as usize));
            }
        }
        let auction = Self { owners, assignments, unassigned, bidder: None };
        proof {
            assert forall|b: int|
                0 <= b < n && #[trigger] auction.assignment_of()[b] is None implies auction.waiting().contains(
                b as usize,
            ) by {
                assert(auction.waiting()[n - 1 - b] == b as usize);
            }
        }
        auction
    }

    /// Takes the next bidder from the stack, or `None` when every bidder holds an object.
    pub fn next_bidder(&mut self) -> (bidder: Option<usize>)
        requires
            old(self).wf(),
            old(self).current() is None,
        ensures
            final(self).wf(),
            final(self).size() == old(self).size(),
            final(self).owner_of() == old(self).owner_of(),
            final(self).assignment_of() == old(self).assignment_of(),
            old(self).waiting().len() == 0 ==> bidder is None && final(self).waiting() == old(
                self,
            ).waiting(),
            old(self).waiting().len() > 0 ==> bidder == Some(old(self).waiting().last())
                && final(self).waiting() == old(self).waiting().drop_last(),
            final(self).current() == bidder,
    {
        let next = self.unassigned.pop();
        self.bidder = next;
        proof {
            let n = self.size();
            let w = old(self).waiting();
            if w.len() > 0 {
                assert forall|b: int|
                    0 <= b < n && #[trigger] self.assignment_of()[b] is None implies self.waiting().contains(
                    b as usize,
                ) || self.current() == Some(b as usize) by {
                    assert(w.contains(b as usize));
                    let k = choose|k: int| 0 <= k < w.len() && w[k] == b as usize;
                    if k < w.len() - 1 {
                        assert(self.waiting()[k] == b as usize);
                    }
                }
                assert forall|i: int| 0 <= i < self.waiting().len() implies #[trigger] self.waiting()[i]
                    < n && self.assignment_of()[self.waiting()[i] as int] is None && self.current()
                    != Some(self.waiting()[i]) by {
                    assert(self.waiting()[i] == w[i]);
                    assert(w[i] != w[w.len() - 1]);
                }
            }
        }
        next
    }

    /// The current bidder wins `object`; the bidder that held it, if any, loses it and
    /// goes back on the stack.
    #[verifier::spinoff_prover]
    #[verifier::rlimit(40)]
    pub fn award(&mut self, object: usize)
        requires
            old(self).wf(),
            old(self).current() is Some,
            object < old(self).size(),
        ensures
            final(self).wf(),
            final(self).size() == old(self).size(),
            final(self).current() is None,
            ({
                let b = old(self).current()->Some_0;
                &&& final(self).owner_of() == old(self).owner_of().update(object as int, Some(b))
                &&& match old(self).owner_of()[object as int] {
                    Some(previous) => {
                        &&& final(self).assignment_of() == old(self).assignment_of().update(
                            previous as int,
                            None,
                        ).update(b as int, Some(object))
                        &&& final(self).waiting() == old(self).waiting().push(previous)
                    },
                    None => {
                        &&& final(self).assignment_of() == old(self).assignment_of().update(
                            b as int,
                            Some(object),
                        )
                        &&& final(self).waiting() == old(self).waiting()
                    },
                }
            }),
    {
        let bidder = match self.bidder {
            Some(b) => b,
            None => {
                return;
            },
        };
        let previous = self.owners[object];
        proof {
            assert(old(self).owner_of()[object as int] == previous);
        }
        if let Some(p) = previous {
            self.assignments.set(p, None);
            self.unassigned.push(p);
        }
        self.owners.set(object, Some(bidder));
        self.assignments.set(bidder, Some(object));
        self.bidder = None;
        let count = self.assignments.len();
        proof {
            let n = self.size();
            assert(n == count);
            let old_w = old(self).waiting();
            let old_a = old(self).assignment_of();
            let old_o = old(self).owner_of();
            assert(self.owner_of() == old_o.update(object as int, Some(bidder)));
            assert(old_a[bidder as int] is None);
            if let Some(p) = previous {
                assert(old_a[p as int] == Some(object));
                assert(p != bidder);
                assert(self.assignment_of() == old_a.update(p as int, None).update(
                    bidder as int,
                    Some(object),
                ));
            } else {
                assert(self.assignment_of() == old_a.update(bidder as int, Some(object)));
            }
            assert forall|b: int| 0 <= b < n implies match #[trigger] self.assignment_of()[b] {
                Some(o) => o < n && self.owner_of()[o as int] == Some(b as usize),
                None => true,
            } by {
                if b == bidder {
                    assert(self.assignment_of()[b] == Some(object));
                    assert(self.owner_of()[object as int] == Some(bidder));
                } else if previous is Some && b == previous->Some_0 {
                    assert(self.assignment_of()[b] is None);
                } else {
                    assert(self.assignment_of()[b] == old_a[b]);
                    match old_a[b] {
                        Some(o) => {
                            assert(old_o[o as int] == Some(b as usize));
                            assert(old_o[object as int] == previous);
                            assert(o != object);
                            assert(self.owner_of()[o as int] == old_o[o as int]);
                        },
                        None => {},
                    }
                }
            }
            assert forall|o: int| 0 <= o < n implies match #[trigger] self.owner_of()[o] {
                Some(b) => b < n && self.assignment_of()[b as int] == Some(o as usize),
                None => true,
            } by {
                if o == object {
                    assert(self.owner_of()[o] == Some(bidder));
                    assert(self.assignment_of()[bidder as int] == Some(object));
                } else {
                    assert(self.owner_of()[o] == old_o[o]);
                    match old_o[o] {
                        Some(b) => {
                            assert(old_a[b as int] == Some(o as usize));
                            assert(b != bidder);
                            if let Some(p) = previous {
                                assert(old_o[object as int] == Some(p));
                                assert(old_a[p as int] == Some(object));
                                assert(b != p);
                            }
                            assert(self.assignment_of()[b as int] == old_a[b as int]);
                        },
                        None => {},
                    }
                }
            }
            assert forall|i: int| 0 <= i < self.waiting().len() implies #[trigger] self.waiting()[i]
                < n && self.assignment_of()[self.waiting()[i] as int] is None && self.current()
                != Some(self.waiting()[i]) by {
                if i < old_w.len() {
                    assert(self.waiting()[i] == old_w[i]);
                    assert(old_w[i] != bidder);
                }
            }
            assert forall|i: int, j: int|
                0 <= i < j < self.waiting().len() implies self.waiting()[i] != self.waiting()[j] by {
                if j >= old_w.len() {
                    assert(self.waiting()[i] == old_w[i]);
                    assert(old_a[old_w[i] as int] is None);
                }
            }
            assert forall|b: int|
                0 <= b < n && #[trigger] self.assignment_of()[b] is None implies self.waiting().contains(
                b as usize,
            ) || self.current() == Some(b as usize) by {
                if previous is Some && b == previous->Some_0 {
                    assert(self.waiting()[self.waiting().len() - 1] == b as usize);
                } else {
                    assert(self.assignment_of()[b] == old_a[b]);
                    assert(old_a[b] is None);
                    assert(old(self).current() == Some(bidder));
                    assert(b != bidder);
                    assert(old_w.contains(b as usize));
                    let k = choose|k: int| 0 <= k < old_w.len() && old_w[k] == b as usize;
                    assert(self.waiting()[k] == b as usize);
                }
            }
        }
    }

    /// The object held by each bidder, once every bidder holds one. The holdings are a
    /// permutation of the objects.
    pub fn into_assignment(self) -> (assignment: Vec<usize>)
        requires
            self.wf(),
            self.waiting().len() == 0,
            self.current() is None,
        ensures
            assignment@.len() == self.size(),
            forall|b: int| 0 <= b < self.size() ==> self.assignment_of()[b] == Some(#[trigger] assignment@[b]),
            forall|b: int| 0 <= b < self.size() ==> #[trigger] assignment@[b] < self.size(),
            forall|b: int, c: int|
                0 <= b < c < self.size() ==> #[trigger] assignment@[b] != #[trigger] assignment@[c],
    {
        let n = self.assignments.len();
        let mut result: Vec<usize> = Vec::new();
        let mut i: usize = 0;
        while i < n
            invariant
                self.wf(),
                self.waiting().len() == 0,
                self.current() is None,
                n == self.size(),
                i <= n,
                result@.len() == i,
                forall|b: int| 0 <= b < i ==> self.assignment_of()[b] == Some(#[trigger] result@[b]),
            decreases n - i,
        {
            proof {
                assert(self.assignment_of()[i as int] is Some) by {
                    if self.assignment_of()[i as int] is None {
                        assert(self.waiting().contains(i));
                    }
                }
            }
            let object = match self.assignments[i] {
                Some(o) => o,
                None => 0,
            };
            result.push(object);
            i = i + 1;
        }
        proof {
            assert forall|b: int, c: int|
                0 <= b < c < self.size() implies #[trigger] result@[b] != #[trigger] result@[c] by {
                assert(self.assignment_of()[b] == Some(result@[b]));
                assert(self.assignment_of()[c] == Some(result@[c]));
            }
        }
        result
    }
}

} // verus!
