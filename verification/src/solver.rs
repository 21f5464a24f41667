//! The exhaustive depth-first search with eager constraint pruning.
//!
//! The search is specified by the recursive spec functions [`search`] and
//! [`search_digits`], which fix both the solution returned (the first one
//! found in the deterministic order: lowest empty cell first, candidate
//! digits ascending) and the exact number of board states examined.
//! [`crate::grid::Board::solve`] is proved to return exactly that solution
//! and that count (the count saturated at `u32::MAX`).

use vstd::prelude::*;

use crate::grid::Board;
use crate::grid::board_wf;
use crate::grid::cells_ok;
use crate::grid::consistent;
use crate::grid::first_empty;
use crate::grid::full;
use crate::grid::lemma_first_empty;
use crate::grid::solved;

verus! {

/// How many cells of `s` at or after position `i` are empty.
pub open spec fn empties_from(s: Seq<Option<u8>>, i: int) -> nat
    decreases s.len() - i
        when 0 <= i <= s.len()
{
    if i >= s.len() {
        0
    } else {
        (if s[i] is None { 1nat } else { 0nat }) + empties_from(s, i + 1)
    }
}

/// How many cells of `s` are empty.
pub open spec fn empties(s: Seq<Option<u8>>) -> nat {
    empties_from(s, 0)
}

/// Filling the empty cell at `i` lowers the count of empty cells at or
/// after `k` by one when `k <= i`, and leaves it unchanged otherwise.
proof fn lemma_empties_from_update(s: Seq<Option<u8>>, i: int, d: u8, k: int)
    requires
        0 <= k <= s.len(),
        0 <= i < s.len(),
        s[i] is None,
    ensures
        empties_from(s.update(i, Some(d)), k)
            == empties_from(s, k) - (if k <= i { 1int } else { 0int }),
    decreases s.len() - k,
{
    if k < s.len() {
        lemma_empties_from_update(s, i, d, k + 1);
    }
}

/// Filling an empty cell lowers the count of empty cells by exactly one.
pub proof fn lemma_empties_update(s: Seq<Option<u8>>, i: int, d: u8)
    requires
        0 <= i < s.len(),
        s[i] is None,
    ensures
        empties(s) >= 1,
        empties(s.update(i, Some(d))) == empties(s) - 1,
{
    lemma_empties_from_update(s, i, d, 0);
}

/// `n`, saturated to the range of a `u32`.
pub open spec fn sat32(n: int) -> u32 {
    if n >= u32::MAX {
        u32::MAX
    } else if n <= 0 {
        0
    } else {
        n as u32
    }
}

/// Saturating after a saturated partial sum is the same as saturating the
/// whole sum.
proof fn lemma_sat32_add(a: int, b: int)
    requires
        a >= 0,
        b >= 0,
    ensures
        sat32(sat32(a) + b) == sat32(a + b),
{
}

/// What the depth-first search returns on candidate board `s`: the first
/// solution in search order (or nothing), and the number of board states
/// examined, the candidate itself included.
pub open spec fn search(s: Seq<Option<u8>>) -> (Option<Seq<Option<u8>>>, nat)
    decreases empties(s), 10int,
{
    if !consistent(s) {
        (None, 1)
    } else if full(s) {
        (Some(s), 1)
    } else {
        let rc = search_digits(s, first_empty(s), 1);
        (rc.0, (rc.1 + 1) as nat)
    }
}

/// What the search returns when it tries digits `d..=9`, in ascending
/// order, in the empty cell at position `i` of `s`: the first solution
/// found (or nothing), and the total number of board states examined
/// inside the branches tried.
pub open spec fn search_digits(s: Seq<Option<u8>>, i: int, d: int) -> (Option<Seq<Option<u8>>>, nat)
    decreases empties(s), 10 - d
        when 1 <= d <= 10 && 0 <= i < s.len() && s[i] is None
        via search_digits_decreases
{
    if d > 9 {
        (None, 0)
    } else {
        let sub = search(s.update(i, Some(d as u8)));
        if sub.0 is Some {
            sub
        } else {
            let rest = search_digits(s, i, d + 1);
            (rest.0, (sub.1 + rest.1) as nat)
        }
    }
}

#[via_fn]
proof fn search_digits_decreases(s: Seq<Option<u8>>, i: int, d: int) {
    if d <= 9 {
        lemma_empties_update(s, i, d as u8);
    }
}

/// Examining a candidate board counts at least that one state: the count
/// the search returns is never zero.
pub proof fn lemma_search_count_at_least_one(s: Seq<Option<u8>>)
    ensures
        search(s).1 >= 1,
{
}

/// An inconsistent candidate is rejected at once: the search returns no
/// solution and counts exactly the one state it examined.
pub proof fn lemma_search_inconsistent(s: Seq<Option<u8>>)
    requires
        !consistent(s),
    ensures
        search(s) == (None::<Seq<Option<u8>>>, 1nat),
{
}

/// Whatever board the search returns is a solution: full and consistent,
/// and itself well formed.
pub proof fn lemma_search_solution_solved(s: Seq<Option<u8>>)
    requires
        board_wf(s),
    ensures
        search(s).0 matches Some(t) ==> board_wf(t) && solved(t),
    decreases empties(s), 10int,
{
    if consistent(s) && !full(s) {
        lemma_first_empty(s);
        lemma_search_digits_solution_solved(s, first_empty(s), 1);
    }
}

proof fn lemma_search_digits_solution_solved(s: Seq<Option<u8>>, i: int, d: int)
    requires
        board_wf(s),
        0 <= i < s.len(),
        s[i] is None,
        1 <= d <= 10,
    ensures
        search_digits(s, i, d).0 matches Some(t) ==> board_wf(t) && solved(t),
    decreases empties(s), 10 - d,
{
    if d <= 9 {
        let s2 = s.update(i, Some(d as u8));
        assert(cells_ok(s2)) by {
            assert(forall|j: int| 0 <= j < s2.len() && j != i ==> s2[j] == s[j]);
        }
        lemma_empties_update(s, i, d as u8);
        lemma_search_solution_solved(s2);
        lemma_search_digits_solution_solved(s, i, d + 1);
    }
}

/// One step of the search, on an owned candidate board.  Increments the
/// examined-state counter (saturating), prunes inconsistent candidates,
/// returns full consistent ones, and otherwise branches over the nine
/// candidate digits for the first empty cell.
fn explore(board: Board, counter: &mut u32) -> (r: Option<Board>)
    requires
        board.wf(),
    ensures
        r is Some <==> search(board@).0 is Some,
        search(board@).0 matches Some(t) ==> r matches Some(rb) && rb@ == t && rb.wf(),
        *final(counter) == sat32(*old(counter) + search(board@).1),
    decreases empties(board@),
{
    let ghost c0 = *counter as int;
    if *counter < u32::MAX {
        *counter = *counter + 1;
    }

    if !board.satisfies_constraints() {
        return None;
    }

    if board.is_full() {
        return Some(board);
    }

    let i = board.first_empty_index();
    let ghost s = board@;
    proof {
        lemma_first_empty(s);
    }

    let mut d: u8 = 1;
    let ghost mut spent: int = 0;
    while d <= 9
        invariant
            1 <= d <= 10,
            c0 == *old(counter),
            c0 >= 0,
            board.wf(),
            board@ == s,
            i < 81,
            s.len() == 81,
            s[i as int] is None,
            i as int == first_empty(s),
            consistent(s),
            !full(s),
            search_digits(s, i as int, 1).0 == search_digits(s, i as int, d as int).0,
            search_digits(s, i as int, 1).1 == spent + search_digits(s, i as int, d as int).1,
            spent >= 0,
            *counter == sat32(c0 + 1 + spent),
        decreases 10 - d,
    {
        let mut cand = board.duplicate();
        cand.set_cell(i, d);
        let ghost s2 = s.update(i as int, Some(d));
        proof {
            lemma_empties_update(s, i as int, d);
        }
        let sub = explore(cand, counter);
        proof {
            lemma_sat32_add(c0 + 1 + spent, search(s2).1 as int);
        }
        if sub.is_some() {
            return sub;
        }
        proof {
            spent = spent + search(s2).1;
        }
        d = d + 1;
    }
    None
}

impl Board {
    /// Runs the exhaustive depth-first search from this board.  Returns the
    /// first solution discovered under the fixed, deterministic search order
    /// (lowest empty cell first, candidate digits 1..=9 ascending), or
    /// `None` when no completion exists, together with the total number of
    /// board states examined (saturated at `u32::MAX`).  Both results are
    /// functions of the input board alone.
    pub fn solve(&self) -> (r: (Option<Board>, u32))
        requires
            self.wf(),
        ensures
            r.0 is Some <==> search(self@).0 is Some,
            search(self@).0 matches Some(t) ==> r.0 matches Some(b) && b@ == t && b.wf()
                && solved(b@),
            r.1 == sat32(search(self@).1 as int),
            r.1 >= 1,
            !consistent(self@) ==> r.0 is None && r.1 == 1,
    {
        let mut counter: u32 = 0;
        let start = self.duplicate();
        let sol = explore(start, &mut counter);
        proof {
            lemma_search_count_at_least_one(self@);
            lemma_search_solution_solved(self@);
        }
        (sol, counter)
    }
}

} // verus!
