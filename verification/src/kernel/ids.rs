//! Id allocation: counters that advance by one, skip ids in use, and wrap
//! from `u64::MAX` to 1 (never 0).

use vstd::prelude::*;

verus! {

/// The counter value after `id`.
pub open spec fn successor(id: u64) -> u64 {
    if id == u64::MAX {
        1
    } else {
        (id + 1) as u64
    }
}

/// The `k`-th id tried when allocation starts at `start`.
pub open spec fn candidate(start: u64, k: nat) -> u64 {
    if start + k <= u64::MAX {
        (start + k) as u64
    } else {
        (start + k - u64::MAX) as u64
    }
}

/// `id` is what allocation starting at `start` yields when `taken` is in
/// use: the first candidate not taken.
pub open spec fn first_free(taken: Set<u64>, start: u64, id: u64) -> bool {
    exists|k: nat|
        candidate(start, k) == id && !taken.contains(id) && forall|j: nat|
            j < k ==> taken.contains(#[trigger] candidate(start, j))
}

proof fn lemma_candidate_step(start: u64, k: nat)
    requires
        1 <= start,
        k < u64::MAX,
    ensures
        candidate(start, k + 1) == successor(candidate(start, k)),
        1 <= candidate(start, k),
{
}

proof fn lemma_candidates_distinct(start: u64, j: nat, k: nat)
    requires
        1 <= start,
        j < k < u64::MAX,
    ensures
        candidate(start, j) != candidate(start, k),
{
}

/// The first id from `start` on that `taken` does not hold, and the counter
/// value after it.
pub fn allocate(taken: &Vec<u64>, start: u64) -> (r: (u64, u64))
    requires
        1 <= start,
        taken@.no_duplicates(),
        taken@.len() < u64::MAX,
    ensures
        first_free(taken@.to_set(), start, r.0),
        r.1 == successor(r.0),
        1 <= r.0,
{
    let ghost taken_set = taken@.to_set();
    let mut next = start;
    let mut tries: usize = 0;
    let ghost mut tried: Set<u64> = Set::empty();
    proof {
        taken@.unique_seq_to_set();
    }
    loop
        invariant
            1 <= start,
            1 <= next,
            next == candidate(start, tries as nat),
            taken_set == taken@.to_set(),
            taken_set.len() == taken@.len(),
            taken_set.finite(),
            tried.finite(),
            tried.len() == tries,
            tried.subset_of(taken_set),
            tries <= taken@.len(),
            taken@.len() < u64::MAX,
            forall|j: nat| j < tries ==> taken_set.contains(#[trigger] candidate(start, j)),
            forall|x: u64| tried.contains(x) <==> exists|j: nat| j < tries && x == candidate(start, j),
        decreases taken@.len() - tries,
    {
        let id = next;
        next = match next.checked_add(1) {
            Some(n) => n,
            None => 1,
        };
        proof {
            lemma_candidate_step(start, tries as nat);
        }
        let mut found = false;
        let mut i: usize = 0;
        while i < taken.len()
            invariant
                i <= taken@.len(),
                !found ==> forall|k: int| 0 <= k < i ==> taken@[k] != id,
                found ==> taken@.contains(id),
            decreases taken@.len() - i,
        {
            if taken[i] == id {
                found = true;
            }
            i = i + 1;
        }
        if !found {
            assert(!taken_set.contains(id));
            return (id, next);
        }
        proof {
            assert(taken_set.contains(id));
            assert(!tried.contains(id)) by {
                if tried.contains(id) {
                    let j = choose|j: nat| j < tries && id == candidate(start, j);
                    lemma_candidates_distinct(start, j, tries as nat);
                }
            }
            let new_tried = tried.insert(id);
            assert(new_tried.len() == tries + 1);
            vstd::set_lib::lemma_len_subset(new_tried, taken_set);
            assert forall|x: u64| new_tried.contains(x) <==> exists|j: nat|
                j < tries + 1 && x == candidate(start, j) by {
                if x == id {
                    assert(x == candidate(start, tries as nat));
                }
                if exists|j: nat| j < tries + 1 && x == candidate(start, j) {
                    let j = choose|j: nat| j < tries + 1 && x == candidate(start, j);
                    if j < tries {
                        assert(tried.contains(x));
                    }
                }
            }
            tried = new_tried;
        }
        tries = tries + 1;
    }
}

} // verus!
