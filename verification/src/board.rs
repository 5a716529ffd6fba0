//! The grid state: 81 cells, each solved or carrying a candidate bitmask,
//! mutated only through the constraint-propagating assignment `mark`.
use vstd::prelude::*;

use crate::calc::{is_peer, number_to_mask, Cell, House};
use crate::errors::{ContradicoryAssignmentError, UnsolvableError};

verus! {

broadcast use vstd::array::group_array_axioms;

/// The candidate snapshot of an unsolved cell: a 9-bit set of digits and its
/// live popcount.
#[derive(Clone, Copy, PartialEq, Eq, Structural, Debug)]
pub struct Possibilities {
    pub mask: u16,
    pub count: u8,
}

/// A cell is either solved with a digit `0..=8` (standing for `1..=9`) or
/// unsolved with a candidate set.
#[derive(Clone, Copy, PartialEq, Eq, Structural, Debug)]
pub enum CellState {
    Solved(u8),
    Unsolved(Possibilities),
}

/// The grid: exactly 81 cell states, cloned wholesale per search branch.
#[derive(Clone, Copy, PartialEq, Eq, Debug)]
pub struct Board {
    pub state: [CellState; 81],
}

/// The single-bit mask of digit `d`.
pub open spec fn digit_mask(d: int) -> u16 {
    1u16 << (d as u16)
}

/// How many bits of `m` are set.
pub open spec fn popcount(m: u16) -> nat
    decreases m,
{
    if m == 0 {
        0
    } else {
        popcount((m / 2) as u16) + (m % 2) as nat
    }
}

pub open spec fn cell_digit(c: CellState) -> int {
    c->Solved_0 as int
}

pub open spec fn cell_mask(c: CellState) -> u16 {
    c->Unsolved_0.mask
}

pub open spec fn cell_count(c: CellState) -> int {
    c->Unsolved_0.count as int
}

/// A single cell state is internally consistent: digits stay below 9, a
/// candidate mask is a non-empty 9-bit set and its count is its popcount.
pub open spec fn cell_wf(c: CellState) -> bool {
    match c {
        CellState::Solved(d) => d <= 8,
        CellState::Unsolved(p) => 0 < p.mask < 512 && p.count as nat == popcount(p.mask),
    }
}

/// No two solved cells of one house hold the same digit.
pub open spec fn no_conflicts(s: Seq<CellState>) -> bool {
    forall|i: int, j: int|
        0 <= i < 81 && 0 <= j < 81 && is_peer(i, j) && #[trigger] s[i] is Solved
            && #[trigger] s[j] is Solved ==> cell_digit(s[i]) != cell_digit(s[j])
}

/// An unsolved cell's mask excludes every digit solved in one of its houses.
pub open spec fn masks_exclude_peers(s: Seq<CellState>) -> bool {
    forall|i: int, j: int|
        0 <= i < 81 && 0 <= j < 81 && is_peer(i, j) && #[trigger] s[i] is Unsolved
            && #[trigger] s[j] is Solved ==> cell_mask(s[i]) & digit_mask(cell_digit(s[j])) == 0
}

/// Conversely, a digit is missing from an unsolved cell's mask only because
/// some cell of one of its houses holds it: candidates are excluded exactly
/// when a peer forces them out, never spuriously. This direction is what
/// makes the search complete.
pub open spec fn masks_complete(s: Seq<CellState>) -> bool {
    forall|i: int, d: int|
        0 <= i < 81 && 0 <= d <= 8 && #[trigger] s[i] is Unsolved && cell_mask(s[i])
            & #[trigger] digit_mask(d) == 0 ==> exists|j: int|
            0 <= j < 81 && #[trigger] is_peer(j, i) && s[j] == CellState::Solved(d as u8)
}

/// The board invariant, established by the constructors and preserved by
/// every successful `mark`: counts match masks, no house repeats a digit,
/// and a mask excludes a digit if and only if a peer holds it.
pub open spec fn board_wf(s: Seq<CellState>) -> bool {
    &&& s.len() == 81
    &&& forall|i: int| 0 <= i < 81 ==> cell_wf(#[trigger] s[i])
    &&& no_conflicts(s)
    &&& masks_exclude_peers(s)
    &&& masks_complete(s)
}

/// `t` is a completion of `s`: complete, constraint-valid, and keeping every
/// digit `s` had already solved.
pub open spec fn is_solution_of(t: Seq<CellState>, s: Seq<CellState>) -> bool {
    board_wf(t) && all_solved(t) && extends(s, t)
}

/// At least two distinct completions of `s` exist.
pub open spec fn two_solutions(s: Seq<CellState>) -> bool {
    exists|t1: Seq<CellState>, t2: Seq<CellState>|
        #[trigger] is_solution_of(t1, s) && #[trigger] is_solution_of(t2, s) && t1 != t2
}

/// Every cell carries a digit.
pub open spec fn all_solved(s: Seq<CellState>) -> bool {
    forall|i: int| 0 <= i < 81 ==> #[trigger] s[i] is Solved
}

/// Every digit solved in `s` is still solved, unchanged, in `t`.
pub open spec fn extends(s: Seq<CellState>, t: Seq<CellState>) -> bool {
    forall|i: int| 0 <= i < 81 && #[trigger] s[i] is Solved ==> t[i] == s[i]
}

/// `c` with digit `d` removed from its candidates, when it is unsolved.
pub open spec fn clear_digit(c: CellState, d: int) -> CellState {
    if c is Unsolved {
        let m = cell_mask(c) & !digit_mask(d);
        CellState::Unsolved(Possibilities { mask: m, count: popcount(m) as u8 })
    } else {
        c
    }
}

/// Whether assigning digit `d` to `cell` succeeds on `s`: a solved cell takes
/// only its own digit again; an unsolved cell must still have `d` as a
/// candidate and clearing `d` must leave every unsolved peer a candidate.
pub open spec fn mark_ok(s: Seq<CellState>, cell: int, d: int) -> bool {
    match s[cell] {
        CellState::Solved(e) => e as int == d,
        CellState::Unsolved(p) => p.mask & digit_mask(d) != 0 && forall|j: int|
            0 <= j < 81 && is_peer(j, cell) && #[trigger] s[j] is Unsolved ==> cell_mask(s[j])
                & !digit_mask(d) != 0,
    }
}

/// The board after a successful assignment of `d` to `cell`: the cell becomes
/// solved and every unsolved peer loses `d` from its candidates.
pub open spec fn mark_result(s: Seq<CellState>, cell: int, d: int) -> Seq<CellState> {
    if s[cell] is Solved {
        s
    } else {
        Seq::new(
            81,
            |i: int|
                if i == cell {
                    CellState::Solved(d as u8)
                } else if is_peer(i, cell) {
                    clear_digit(s[i], d)
                } else {
                    s[i]
                },
        )
    }
}

/// The all-candidates state every board starts from.
pub open spec fn initial_state() -> Seq<CellState> {
    Seq::new(81, |i: int| CellState::Unsolved(Possibilities { mask: 0x1ff, count: 9 }))
}

/// The state after applying the first `n` non-zero givens of `fields` in
/// index order, or `None` as soon as one assignment fails.
pub open spec fn apply_givens(s: Seq<CellState>, fields: Seq<u8>, n: int) -> Option<Seq<CellState>>
    decreases n,
{
    if n <= 0 {
        Some(s)
    } else {
        match apply_givens(s, fields, n - 1) {
            Option::None => Option::None,
            Option::Some(t) => {
                if fields[n - 1] == 0 {
                    Some(t)
                } else if mark_ok(t, n - 1, fields[n - 1] - 1) {
                    Some(mark_result(t, n - 1, fields[n - 1] - 1))
                } else {
                    Option::None
                }
            },
        }
    }
}

/// How many of the first `n` cells are unsolved.
pub open spec fn unsolved_upto(s: Seq<CellState>, n: int) -> nat
    decreases n,
{
    if n <= 0 {
        0
    } else {
        unsolved_upto(s, n - 1) + if s[n - 1] is Unsolved {
            1nat
        } else {
            0nat
        }
    }
}

/// How many cells of the board are unsolved: the solver's search measure.
pub open spec fn num_unsolved(s: Seq<CellState>) -> nat {
    unsolved_upto(s, 81)
}

proof fn lemma_unsolved_upto_frame(s: Seq<CellState>, t: Seq<CellState>, c: int, n: int)
    requires
        s[c] is Unsolved,
        !(t[c] is Unsolved),
        forall|j: int| 0 <= j < 81 && j != c ==> (s[j] is Unsolved <==> t[j] is Unsolved),
        0 <= c < 81,
        0 <= n <= 81,
    ensures
        unsolved_upto(t, n) + (if c < n {
            1nat
        } else {
            0nat
        }) == unsolved_upto(s, n),
    decreases n,
{
    if n > 0 {
        lemma_unsolved_upto_frame(s, t, c, n - 1);
    }
}

/// Solving one cell while every other cell keeps its kind shrinks the search
/// measure.
pub proof fn lemma_mark_unsolved_decreases(s: Seq<CellState>, t: Seq<CellState>, c: int)
    requires
        0 <= c < 81,
        s[c] is Unsolved,
        t[c] is Solved,
        forall|j: int| 0 <= j < 81 && j != c ==> (s[j] is Unsolved <==> t[j] is Unsolved),
    ensures
        num_unsolved(t) < num_unsolved(s),
{
    lemma_unsolved_upto_frame(s, t, c, 81);
}

/// Clearing a digit from unsolved peers keeps every cell's kind; only the
/// marked cell flips to solved.
pub proof fn lemma_mark_result_kinds(s: Seq<CellState>, c: int, d: int)
    requires
        0 <= c < 81,
        s.len() == 81,
        s[c] is Unsolved,
    ensures
        mark_result(s, c, d)[c] is Solved,
        forall|j: int|
            0 <= j < 81 && j != c ==> (s[j] is Unsolved <==> mark_result(s, c, d)[j] is Unsolved),
{
}

/// Applying the givens never reaches `Some` again after a failure.
pub proof fn lemma_apply_givens_none(s: Seq<CellState>, fields: Seq<u8>, n: int, n2: int)
    requires
        apply_givens(s, fields, n) is None,
        n <= n2,
    ensures
        apply_givens(s, fields, n2) is None,
    decreases n2 - n,
{
    if n < n2 {
        lemma_apply_givens_none(s, fields, n, n2 - 1);
    }
}

/// The character a cell renders to: its digit, or `0` while unsolved.
pub open spec fn cell_char(c: CellState) -> char {
    match c {
        CellState::Solved(n) => digit_char(n as int + 1),
        CellState::Unsolved(_) => '0',
    }
}

/// The numeric value a cell renders to: its digit `1..=9`, or `0` while
/// unsolved.
pub open spec fn cell_num(c: CellState) -> u8 {
    match c {
        CellState::Solved(n) => (n + 1) as u8,
        CellState::Unsolved(_) => 0,
    }
}

/// The decimal character for `d`, with `0` standing in for anything else.
pub open spec fn digit_char(d: int) -> char {
    if d == 1 {
        '1'
    } else if d == 2 {
        '2'
    } else if d == 3 {
        '3'
    } else if d == 4 {
        '4'
    } else if d == 5 {
        '5'
    } else if d == 6 {
        '6'
    } else if d == 7 {
        '7'
    } else if d == 8 {
        '8'
    } else if d == 9 {
        '9'
    } else {
        '0'
    }
}

/// The number of bits set in `m`.
pub fn count_bits(mask: u16) -> (c: u8)
    ensures
        c as nat == popcount(mask),
        c <= 16,
{
    let mut m: u16 = mask;
    let mut c: u8 = 0;
    proof {
        lemma_popcount_le(mask);
    }
    while m > 0
        invariant
            popcount(mask) == c as nat + popcount(m),
            popcount(mask) <= 16,
            c as nat <= popcount(mask),
        decreases m,
    {
        proof {
            lemma_popcount_le(m);
        }
        if m % 2 == 1 {
            c = c + 1;
        }
        m = m / 2;
    }
    c
}

/// A mask's popcount never exceeds its bit width.
pub proof fn lemma_popcount_le(m: u16)
    ensures
        popcount(m) <= 16,
    decreases m,
{
    reveal_with_fuel(p2, 17);
    assert(p2(16) == 65536);
    lemma_popcount_le_n(m, 16);
}

proof fn lemma_popcount_le_n(m: u16, n: nat)
    requires
        m < p2(n),
    ensures
        popcount(m) <= n,
    decreases n,
{
    if m == 0 {
    } else {
        if n == 0 {
            assert(p2(0) == 1);
        } else {
            assert(p2(n) == 2 * p2((n - 1) as nat));
            lemma_popcount_le_n((m / 2) as u16, (n - 1) as nat);
        }
    }
}

spec fn p2(n: nat) -> nat
    decreases n,
{
    if n == 0 {
        1
    } else {
        2 * p2((n - 1) as nat)
    }
}

/// A mask is empty exactly when its popcount is zero.
pub proof fn lemma_popcount_zero(m: u16)
    ensures
        (popcount(m) == 0) <==> (m == 0),
    decreases m,
{
    if m != 0 {
        if m % 2 == 0 {
            lemma_popcount_zero((m / 2) as u16);
        }
    }
}

/// Whether one of the listed cells has index `i`.
pub open spec fn in_cells(cells: Seq<Cell>, i: int) -> bool {
    exists|k: int| 0 <= k < cells.len() && (#[trigger] cells[k]).0 == i
}

/// Whether clearing `mask_off`'s complement leaves every listed unsolved cell
/// of `s` with at least one candidate.
pub open spec fn pass_cond(s: Seq<CellState>, cells: Seq<Cell>, mask_off: u16) -> bool {
    forall|k: int|
        0 <= k < cells.len() && s[(#[trigger] cells[k]).0 as int] is Unsolved ==> cell_mask(
            s[cells[k].0 as int],
        ) & mask_off != 0
}

/// The board after stripping `mask_off`'s complement from the candidates of
/// every listed unsolved cell.
pub open spec fn clear_result(s: Seq<CellState>, cells: Seq<Cell>, mask_off: u16) -> Seq<
    CellState,
> {
    Seq::new(
        81,
        |i: int|
            if in_cells(cells, i) && s[i] is Unsolved {
                CellState::Unsolved(
                    Possibilities {
                        mask: cell_mask(s[i]) & mask_off,
                        count: popcount(cell_mask(s[i]) & mask_off) as u8,
                    },
                )
            } else {
                s[i]
            },
    )
}

/// Two cells of one row and one column coincide.
proof fn lemma_cell_unique(i: int, c: int)
    requires
        0 <= i < 81,
        0 <= c < 81,
        crate::calc::row_of_idx(i) == crate::calc::row_of_idx(c),
        crate::calc::col_of_idx(i) == crate::calc::col_of_idx(c),
    ensures
        i == c,
{
    assert(i == i / 9 * 9 + i % 9);
    assert(c == c / 9 * 9 + c % 9);
}

/// Relates the three sequential house-clearing passes of `mark` to the
/// one-step specification `mark_result`: the passes succeed exactly when
/// `mark_ok` holds, and then produce `mark_result`, which is well-formed.
proof fn lemma_mark_combine(
    s0: Seq<CellState>,
    c: int,
    d: int,
    off: u16,
    rseq: Seq<Cell>,
    cseq: Seq<Cell>,
    bseq: Seq<Cell>,
)
    requires
        board_wf(s0),
        0 <= c < 81,
        0 <= d <= 8,
        s0[c] is Unsolved,
        cell_mask(s0[c]) & digit_mask(d) != 0,
        off == !digit_mask(d),
        forall|i: int|
            0 <= i < 81 ==> (in_cells(rseq, i) <==> crate::calc::row_of_idx(i)
                == crate::calc::row_of_idx(c)),
        forall|i: int|
            0 <= i < 81 ==> (in_cells(cseq, i) <==> crate::calc::col_of_idx(i)
                == crate::calc::col_of_idx(c)),
        forall|i: int|
            0 <= i < 81 ==> (in_cells(bseq, i) <==> crate::calc::block_of_idx(i)
                == crate::calc::block_of_idx(c)),
        forall|k: int| 0 <= k < rseq.len() ==> (#[trigger] rseq[k]).0 < 81,
        forall|k: int| 0 <= k < cseq.len() ==> (#[trigger] cseq[k]).0 < 81,
        forall|k: int| 0 <= k < bseq.len() ==> (#[trigger] bseq[k]).0 < 81,
    ensures
        (pass_cond(s0.update(c, CellState::Solved(d as u8)), rseq, off) && pass_cond(
            clear_result(s0.update(c, CellState::Solved(d as u8)), rseq, off),
            cseq,
            off,
        ) && pass_cond(
            clear_result(
                clear_result(s0.update(c, CellState::Solved(d as u8)), rseq, off),
                cseq,
                off,
            ),
            bseq,
            off,
        )) <==> mark_ok(s0, c, d),
        mark_ok(s0, c, d) ==> clear_result(
            clear_result(
                clear_result(s0.update(c, CellState::Solved(d as u8)), rseq, off),
                cseq,
                off,
            ),
            bseq,
            off,
        ) =~= mark_result(s0, c, d),
        mark_ok(s0, c, d) ==> board_wf(mark_result(s0, c, d)),
{
    lemma_mask_facts();
    let s1 = s0.update(c, CellState::Solved(d as u8));
    let s2 = clear_result(s1, rseq, off);
    let s3 = clear_result(s2, cseq, off);
    let s4 = clear_result(s3, bseq, off);
    let rh = |i: int| crate::calc::row_of_idx(i) == crate::calc::row_of_idx(c);
    let ch = |i: int| crate::calc::col_of_idx(i) == crate::calc::col_of_idx(c);
    let bh = |i: int| crate::calc::block_of_idx(i) == crate::calc::block_of_idx(c);

    // Shape of the intermediate states, cell by cell.
    assert forall|i: int| 0 <= i < 81 && i != c implies (
    (s2[i] is Unsolved <==> s0[i] is Unsolved) && (s3[i] is Unsolved <==> s0[i] is Unsolved) && (
    s4[i] is Unsolved <==> s0[i] is Unsolved) && (s0[i] is Solved ==> s2[i] == s0[i] && s3[i]
        == s0[i] && s4[i] == s0[i]) && (s0[i] is Unsolved ==> cell_mask(s2[i]) == (if rh(i) {
        cell_mask(s0[i]) & off
    } else {
        cell_mask(s0[i])
    })) && (s0[i] is Unsolved ==> cell_mask(s3[i]) == (if rh(i) || ch(i) {
        cell_mask(s0[i]) & off
    } else {
        cell_mask(s0[i])
    })) && (s0[i] is Unsolved ==> cell_mask(s4[i]) == (if rh(i) || ch(i) || bh(i) {
        cell_mask(s0[i]) & off
    } else {
        cell_mask(s0[i])
    }))) by {
        assert(s1[i] == s0[i]);
        assert((cell_mask(s0[i]) & off) & off == cell_mask(s0[i]) & off);
    }

    // The pass conditions, together, say exactly that every unsolved peer
    // keeps a candidate.
    let peer_cond = mark_ok(s0, c, d);
    assert((pass_cond(s1, rseq, off) && pass_cond(s2, cseq, off) && pass_cond(s3, bseq, off))
        <==> mark_ok(s0, c, d)) by {
        if pass_cond(s1, rseq, off) && pass_cond(s2, cseq, off) && pass_cond(s3, bseq, off) {
            assert forall|j: int|
                0 <= j < 81 && is_peer(j, c) && #[trigger] s0[j] is Unsolved implies cell_mask(
                s0[j],
            ) & !digit_mask(d) != 0 by {
                if rh(j) {
                    let k = choose|k: int| 0 <= k < rseq.len() && (#[trigger] rseq[k]).0 == j;
                    assert(s1[j] == s0[j]);
                    assert(cell_mask(s1[rseq[k].0 as int]) & off != 0);
                } else if ch(j) {
                    let k = choose|k: int| 0 <= k < cseq.len() && (#[trigger] cseq[k]).0 == j;
                    assert(cell_mask(s2[j]) == cell_mask(s0[j]));
                    assert(cell_mask(s2[cseq[k].0 as int]) & off != 0);
                } else {
                    assert(bh(j));
                    let k = choose|k: int| 0 <= k < bseq.len() && (#[trigger] bseq[k]).0 == j;
                    assert(cell_mask(s3[bseq[k].0 as int]) & off != 0);
                    if rh(j) || ch(j) {
                        assert(cell_mask(s3[j]) == cell_mask(s0[j]) & off);
                        assert((cell_mask(s0[j]) & off) & off != 0);
                    } else {
                        assert(cell_mask(s3[j]) == cell_mask(s0[j]));
                    }
                }
            }
        }
        if mark_ok(s0, c, d) {
            assert forall|k: int|
                0 <= k < rseq.len() && s1[(#[trigger] rseq[k]).0 as int] is Unsolved implies
                cell_mask(s1[rseq[k].0 as int]) & off != 0 by {
                let j = rseq[k].0 as int;
                assert(in_cells(rseq, j));
                assert(j != c);
                assert(is_peer(j, c));
            }
            assert forall|k: int|
                0 <= k < cseq.len() && s2[(#[trigger] cseq[k]).0 as int] is Unsolved implies
                cell_mask(s2[cseq[k].0 as int]) & off != 0 by {
                let j = cseq[k].0 as int;
                assert(in_cells(cseq, j));
                if j != c {
                    assert(is_peer(j, c));
                    if rh(j) {
                        lemma_cell_unique(j, c);
                    }
                    assert(cell_mask(s2[j]) == cell_mask(s0[j]));
                }
            }
            assert forall|k: int|
                0 <= k < bseq.len() && s3[(#[trigger] bseq[k]).0 as int] is Unsolved implies
                cell_mask(s3[bseq[k].0 as int]) & off != 0 by {
                let j = bseq[k].0 as int;
                assert(in_cells(bseq, j));
                if j != c {
                    assert(is_peer(j, c));
                    if rh(j) || ch(j) {
                        assert(cell_mask(s3[j]) == cell_mask(s0[j]) & off);
                        assert((cell_mask(s0[j]) & off) & off != 0);
                    } else {
                        assert(cell_mask(s3[j]) == cell_mask(s0[j]));
                    }
                }
            }
        }
    }

    if mark_ok(s0, c, d) {
        let m = mark_result(s0, c, d);
        // The three passes compose to the one-step result.
        assert forall|i: int| 0 <= i < 81 implies s4[i] == m[i] by {
            if i == c {
                assert(s1[i] == CellState::Solved(d as u8));
                assert(!(s1[i] is Unsolved));
                assert(s4[i] == CellState::Solved(d as u8));
            } else if s0[i] is Solved {
                assert(s4[i] == s0[i]);
                assert(m[i] == s0[i]);
            } else if is_peer(i, c) {
                assert(rh(i) || ch(i) || bh(i));
                assert(cell_mask(s4[i]) == cell_mask(s0[i]) & off);
                assert(s4[i] == clear_digit(s0[i], d));
            } else {
                assert(!rh(i) && !ch(i) && !bh(i));
                assert(s4[i] == s0[i]);
                assert(m[i] == s0[i]);
            }
        }
        // The one-step result keeps the board invariant.
        lemma_mark_result_wf(s0, c, d);
    }
}

/// A successful assignment keeps the whole board invariant: counts stay
/// popcounts, no house gains a repeated digit, and masks still exclude a
/// digit exactly when a peer holds it.
pub proof fn lemma_mark_result_wf(s0: Seq<CellState>, c: int, d: int)
    requires
        board_wf(s0),
        0 <= c < 81,
        0 <= d <= 8,
        s0[c] is Unsolved,
        mark_ok(s0, c, d),
    ensures
        board_wf(mark_result(s0, c, d)),
{
    lemma_mask_facts();
    let m = mark_result(s0, c, d);
    assert(cell_mask(s0[c]) & digit_mask(d) != 0);
    assert(board_wf(m)) by {
            assert forall|i: int| 0 <= i < 81 implies cell_wf(#[trigger] m[i]) by {
                if i == c {
                } else if s0[i] is Unsolved && is_peer(i, c) {
                    assert(m[i] == clear_digit(s0[i], d));
                    assert(cell_mask(s0[i]) & !digit_mask(d) != 0);
                    lemma_popcount_le(cell_mask(s0[i]) & !digit_mask(d));
                    assert((cell_mask(s0[i]) & !digit_mask(d)) <= cell_mask(s0[i]));
                } else {
                    assert(m[i] == s0[i]);
                }
            }
            assert forall|i: int, j: int|
                0 <= i < 81 && 0 <= j < 81 && is_peer(i, j) && #[trigger] m[i] is Solved
                    && #[trigger] m[j] is Solved implies cell_digit(m[i]) != cell_digit(m[j]) by {
                if i == c && j != c {
                    if s0[j] is Solved && cell_digit(s0[j]) == d {
                        assert(cell_mask(s0[c]) & digit_mask(cell_digit(s0[j])) == 0);
                        assert(false);
                    }
                } else if j == c && i != c {
                    if s0[i] is Solved && cell_digit(s0[i]) == d {
                        assert(cell_mask(s0[c]) & digit_mask(cell_digit(s0[i])) == 0);
                        assert(false);
                    }
                } else if i != c && j != c {
                    assert(m[i] == s0[i] && m[j] == s0[j]);
                }
            }
            assert forall|i: int, j: int|
                0 <= i < 81 && 0 <= j < 81 && is_peer(i, j) && #[trigger] m[i] is Unsolved
                    && #[trigger] m[j] is Solved implies cell_mask(m[i]) & digit_mask(
                cell_digit(m[j]),
            ) == 0 by {
                assert(i != c);
                if j == c {
                    assert(m[i] == clear_digit(s0[i], d));
                    assert((cell_mask(s0[i]) & !digit_mask(d)) & digit_mask(d) == 0);
                } else {
                    assert(m[j] == s0[j] && s0[j] is Solved);
                    assert(s0[i] is Unsolved);
                    assert(cell_mask(s0[i]) & digit_mask(cell_digit(s0[j])) == 0);
                    if is_peer(i, c) {
                        assert(m[i] == clear_digit(s0[i], d));
                        assert((cell_mask(s0[i]) & !digit_mask(d)) & digit_mask(cell_digit(s0[j]))
                            == 0);
                    } else {
                        assert(m[i] == s0[i]);
                    }
                }
            }
            assert forall|i: int, dd: int|
                0 <= i < 81 && 0 <= dd <= 8 && #[trigger] m[i] is Unsolved && cell_mask(m[i])
                    & #[trigger] digit_mask(dd) == 0 implies exists|j: int|
                0 <= j < 81 && #[trigger] is_peer(j, i) && m[j] == CellState::Solved(
                    dd as u8,
                ) by {
                assert(i != c && s0[i] is Unsolved);
                if cell_mask(s0[i]) & digit_mask(dd) == 0 {
                    // the digit was already excluded: the old witness still
                    // holds it
                    let j = choose|j: int|
                        0 <= j < 81 && #[trigger] is_peer(j, i) && s0[j] == CellState::Solved(
                            dd as u8,
                        );
                    assert(j != c);
                    assert(m[j] == s0[j]);
                } else {
                    // this very assignment cleared the bit: the marked cell
                    // is the witness
                    assert(is_peer(i, c)) by {
                        if !is_peer(i, c) {
                            assert(m[i] == s0[i]);
                        }
                    }
                    assert(m[i] == clear_digit(s0[i], d));
                    assert(cell_mask(m[i]) == cell_mask(s0[i]) & !digit_mask(d));
                    lemma_digit_mask_facts();
                    assert(dd == d) by {
                        assert(digit_mask(dd) == 1u16 << (dd as u16));
                        assert(digit_mask(d) == 1u16 << (d as u16));
                        assert((cell_mask(s0[i]) & !(1u16 << (d as u16))) & (1u16 << (dd as u16))
                            == 0);
                        assert(cell_mask(s0[i]) & (1u16 << (dd as u16)) != 0);
                    }
                    assert(0 <= c < 81 && is_peer(c, i) && m[c] == CellState::Solved(dd as u8));
                }
            }
        }
}

/// The digit a completion puts in an unsolved cell is still among that
/// cell's candidates: were it excluded, some peer would already hold it, and
/// the completion would repeat the digit within a house.
pub proof fn lemma_solution_digit_in_mask(s: Seq<CellState>, t: Seq<CellState>, c: int)
    requires
        board_wf(s),
        is_solution_of(t, s),
        0 <= c < 81,
        s[c] is Unsolved,
    ensures
        t[c] is Solved,
        0 <= cell_digit(t[c]) <= 8,
        cell_mask(s[c]) & digit_mask(cell_digit(t[c])) != 0,
{
    let d = cell_digit(t[c]);
    assert(t[c] is Solved);
    assert(cell_wf(t[c]));
    if cell_mask(s[c]) & digit_mask(d) == 0 {
        let j = choose|j: int|
            0 <= j < 81 && #[trigger] is_peer(j, c) && s[j] == CellState::Solved(d as u8);
        assert(t[j] == s[j]);
        assert(t[j] is Solved && cell_digit(t[j]) == d);
        assert(cell_digit(t[c]) != cell_digit(t[j]));
        assert(false);
    }
}

/// Assigning a completion's own digit to an unsolved cell always succeeds:
/// the digit is a live candidate, and no unsolved peer can be left without
/// candidates, since each peer's own completion digit survives the clearing.
pub proof fn lemma_solution_forces_mark(s: Seq<CellState>, t: Seq<CellState>, c: int)
    requires
        board_wf(s),
        is_solution_of(t, s),
        0 <= c < 81,
        s[c] is Unsolved,
    ensures
        t[c] is Solved,
        0 <= cell_digit(t[c]) <= 8,
        mark_ok(s, c, cell_digit(t[c])),
{
    let d = cell_digit(t[c]);
    lemma_solution_digit_in_mask(s, t, c);
    assert forall|j: int|
        0 <= j < 81 && is_peer(j, c) && #[trigger] s[j] is Unsolved implies cell_mask(s[j])
        & !digit_mask(d) != 0 by {
        if cell_mask(s[j]) & !digit_mask(d) == 0 {
            lemma_solution_digit_in_mask(s, t, j);
            let e = cell_digit(t[j]);
            lemma_digit_mask_facts();
            assert(e == d) by {
                assert(cell_mask(s[j]) & !(1u16 << (d as u16)) == 0);
                assert(cell_mask(s[j]) & (1u16 << (e as u16)) != 0);
            }
            assert(cell_digit(t[j]) != cell_digit(t[c]));
            assert(false);
        }
    }
}

/// The completions of a branch are exactly the completions of the whole
/// board that put the branch's digit in the branching cell.
pub proof fn lemma_branch_solutions(s: Seq<CellState>, c: int, d: int)
    requires
        board_wf(s),
        0 <= c < 81,
        0 <= d <= 8,
        s[c] is Unsolved,
    ensures
        forall|t: Seq<CellState>|
            #![trigger is_solution_of(t, mark_result(s, c, d))]
            #![trigger is_solution_of(t, s), digit_mask(d)]
            is_solution_of(t, mark_result(s, c, d)) <==> (is_solution_of(t, s) && t[c]
                == CellState::Solved(d as u8)),
{
    let m = mark_result(s, c, d);
    assert forall|t: Seq<CellState>| #[trigger] is_solution_of(t, m) implies (is_solution_of(t, s)
        && t[c] == CellState::Solved(d as u8)) by {
        assert(m[c] == CellState::Solved(d as u8));
        assert(t[c] == m[c]);
        assert forall|i: int| 0 <= i < 81 && #[trigger] s[i] is Solved implies t[i] == s[i] by {
            assert(i != c);
            assert(m[i] == s[i]);
        }
    }
    assert forall|t: Seq<CellState>|
        is_solution_of(t, s) && t[c] == CellState::Solved(d as u8) implies #[trigger]
        is_solution_of(t, m) by {
        assert forall|i: int| 0 <= i < 81 && #[trigger] m[i] is Solved implies t[i] == m[i] by {
            if i == c {
                assert(m[c] == CellState::Solved(d as u8));
            } else {
                assert(m[i] == s[i] || m[i] == clear_digit(s[i], d));
                assert(m[i] == s[i] && s[i] is Solved);
            }
        }
    }
}

/// When no two distinct completions exist, all completions coincide.
pub proof fn lemma_unique_solution(s: Seq<CellState>, t1: Seq<CellState>, t2: Seq<CellState>)
    requires
        !two_solutions(s),
        is_solution_of(t1, s),
        is_solution_of(t2, s),
    ensures
        t1 == t2,
{
    if t1 != t2 {
        assert(is_solution_of(t1, s) && is_solution_of(t2, s) && t1 != t2);
    }
}

/// A complete board is its own sole completion.
pub proof fn lemma_complete_board_solutions(s: Seq<CellState>)
    requires
        s.len() == 81,
        all_solved(s),
    ensures
        forall|t: Seq<CellState>| #[trigger] is_solution_of(t, s) ==> t == s,
{
    assert forall|t: Seq<CellState>| #[trigger] is_solution_of(t, s) implies t == s by {
        assert forall|i: int| 0 <= i < 81 implies t[i] == s[i] by {
            assert(s[i] is Solved);
        }
        assert(t =~= s);
    }
}

/// The empty board carries the invariant.
pub proof fn lemma_initial_state_wf()
    ensures
        board_wf(initial_state()),
{
    reveal_with_fuel(popcount, 11);
    assert(popcount(0x1ff) == 9);
    lemma_digit_mask_facts();
    let s = initial_state();
    assert forall|i: int, dd: int|
        0 <= i < 81 && 0 <= dd <= 8 && #[trigger] s[i] is Unsolved && cell_mask(s[i])
            & #[trigger] digit_mask(dd) == 0 implies exists|j: int|
        0 <= j < 81 && #[trigger] is_peer(j, i) && s[j] == CellState::Solved(dd as u8) by {
        assert(digit_mask(dd) == 1u16 << (dd as u16));
        assert(0x1ffu16 & (1u16 << (dd as u16)) != 0);
    }
}

/// Applying givens that some complete valid grid satisfies never fails, and
/// that grid remains a completion of every intermediate board: constraint
/// propagation cannot rule out an actual solution.
pub proof fn lemma_apply_givens_complete(p: Seq<u8>, t: Seq<CellState>, n: int)
    requires
        p.len() == 81,
        forall|i: int| 0 <= i < 81 ==> #[trigger] p[i] <= 9,
        board_wf(t),
        all_solved(t),
        forall|i: int|
            0 <= i < 81 && #[trigger] p[i] != 0 ==> t[i] == CellState::Solved((p[i] - 1) as u8),
        0 <= n <= 81,
    ensures
        apply_givens(initial_state(), p, n) is Some,
        board_wf(apply_givens(initial_state(), p, n)->0),
        is_solution_of(t, apply_givens(initial_state(), p, n)->0),
    decreases n,
{
    if n == 0 {
        lemma_initial_state_wf();
        assert(extends(initial_state(), t));
    } else {
        lemma_apply_givens_complete(p, t, n - 1);
        let u = apply_givens(initial_state(), p, n - 1)->0;
        if p[n - 1] != 0 {
            let d = p[n - 1] - 1;
            assert(t[n - 1] == CellState::Solved((p[n - 1] - 1) as u8));
            if u[n - 1] is Solved {
                assert(t[n - 1] == u[n - 1]);
                assert(cell_digit(u[n - 1]) == d);
                assert(mark_ok(u, n - 1, d));
                assert(mark_result(u, n - 1, d) == u);
            } else {
                lemma_solution_forces_mark(u, t, n - 1);
                assert(cell_digit(t[n - 1]) == d);
                lemma_mark_result_wf(u, n - 1, d);
                lemma_branch_solutions(u, n - 1, d);
                assert(is_solution_of(t, mark_result(u, n - 1, d)));
            }
        }
    }
}

/// Small facts about 16-bit masks that the assignment proofs lean on.
proof fn lemma_mask_facts()
    by (bit_vector)
    ensures
        forall|a: u16, b: u16| #[trigger] (a & b) <= a,
        forall|a: u16, b: u16| #[trigger] ((a & b) & b) == a & b,
        forall|a: u16| #[trigger] (a ^ 0xffff) == !a,
        forall|a: u16, b: u16| #[trigger] ((a & !b) & b) == 0,
        forall|a: u16, b: u16, c: u16| (a & b) == 0 ==> #[trigger] ((a & c) & b) == 0,
{
}

/// Facts about single-digit masks: every digit is open in a full mask, and a
/// bit that clearing one digit removes, or the sole bit a mask may keep, is
/// that digit's own.
proof fn lemma_digit_mask_facts()
    by (bit_vector)
    ensures
        forall|d: u16| d <= 8 ==> #[trigger] (0x1ffu16 & (1u16 << d)) != 0,
        forall|a: u16, d: u16, v: u16|
            d <= 15 && v <= 15 && (a & (1u16 << d)) != 0 && #[trigger] ((a & !(1u16 << v)) & (1u16
                << d)) == 0 ==> d == v,
        forall|a: u16, e: u16, v: u16|
            e <= 15 && v <= 15 && #[trigger] (a & !(1u16 << v)) == 0 && (a & #[trigger] (1u16
                << e)) != 0 ==> e == v,
{
}

impl Board {
    /// A board with every cell unsolved and all nine digits open.
    pub fn new() -> (b: Self)
        ensures
            b.state@ =~= initial_state(),
            board_wf(b.state@),
    {
        let b = Board {
            state: [CellState::Unsolved(Possibilities { count: 9, mask: 0b111111111 });81],
        };
        proof {
            lemma_initial_state_wf();
            assert(b.state@ =~= initial_state());
        }
        b
    }

    /// Strips the digits outside `mask_off` from every listed unsolved cell,
    /// failing as soon as a cell would be left without candidates (the board
    /// is then partially updated and meant to be discarded).
    pub fn mark_of_cells(&mut self, mask_off: u16, cells: &Vec<Cell>) -> (r: Result<(), ()>)
        requires
            old(self).state@.len() == 81,
            forall|i: int| 0 <= i < 81 ==> cell_wf(#[trigger] old(self).state@[i]),
            forall|k: int| 0 <= k < cells@.len() ==> (#[trigger] cells@[k]).0 < 81,
        ensures
            final(self).state@.len() == 81,
            r is Ok <==> pass_cond(old(self).state@, cells@, mask_off),
            r is Ok ==> final(self).state@ =~= clear_result(old(self).state@, cells@, mask_off),
            r is Err ==> exists|k: int|
                #![trigger cells@.take(k)]
                0 <= k < cells@.len() && final(self).state@ =~= clear_result(
                    old(self).state@,
                    cells@.take(k),
                    mask_off,
                ) && old(self).state@[cells@[k].0 as int] is Unsolved && cell_mask(
                    old(self).state@[cells@[k].0 as int],
                ) & mask_off == 0,
            forall|i: int| 0 <= i < 81 ==> cell_wf(#[trigger] final(self).state@[i]),
            forall|i: int|
                0 <= i < 81 && old(self).state@[i] is Solved ==> final(self).state@[i] == old(
                    self,
                ).state@[i],
    {
        proof {
            lemma_mask_facts();
        }
        let ghost s0 = self.state@;
        let mut idx: usize = 0;
        while idx < cells.len()
            invariant
                self.state@.len() == 81,
                s0 == old(self).state@,
                s0.len() == 81,
                idx <= cells@.len(),
                forall|i: int| 0 <= i < 81 ==> cell_wf(#[trigger] s0[i]),
                forall|k: int| 0 <= k < cells@.len() ==> (#[trigger] cells@[k]).0 < 81,
                self.state@ =~= clear_result(s0, cells@.take(idx as int), mask_off),
                forall|k: int|
                    0 <= k < idx && s0[(#[trigger] cells@[k]).0 as int] is Unsolved ==> cell_mask(
                        s0[cells@[k].0 as int],
                    ) & mask_off != 0,
            decreases cells@.len() - idx,
        {
            let c = cells[idx];
            let ci = c.0 as usize;
            let ghost pre = self.state@;
            proof {
                lemma_mask_facts();
            }
            match self.state[ci] {
                CellState::Unsolved(p) => {
                    let new_mask = p.mask & mask_off;
                    let new_count = count_bits(new_mask);
                    proof {
                        lemma_popcount_zero(new_mask);
                        // The cell's current mask is its original one, already
                        // cleared or not; clearing is idempotent either way.
                        assert(pre[ci as int] == clear_result(
                            s0,
                            cells@.take(idx as int),
                            mask_off,
                        )[ci as int]);
                        assert(s0[ci as int] is Unsolved);
                        if in_cells(cells@.take(idx as int), ci as int) {
                            assert(p.mask == cell_mask(s0[ci as int]) & mask_off);
                        } else {
                            assert(p.mask == cell_mask(s0[ci as int]));
                        }
                        assert(new_mask == cell_mask(s0[ci as int]) & mask_off);
                    }
                    if new_count == 0 {
                        proof {
                            assert(cells@[idx as int].0 as int == ci as int);
                            assert(cell_mask(s0[ci as int]) & mask_off == 0);
                            assert(!pass_cond(s0, cells@, mask_off)) by {
                                assert(0 <= idx < cells@.len() && s0[(cells@[idx as int]).0 as int]
                                    is Unsolved && !(cell_mask(s0[cells@[idx as int].0 as int])
                                    & mask_off != 0));
                            }
                            assert forall|i: int|
                                0 <= i < 81 && s0[i] is Solved implies self.state@[i] == s0[i] by {
                                assert(self.state@[i] == clear_result(
                                    s0,
                                    cells@.take(idx as int),
                                    mask_off,
                                )[i]);
                            }
                            assert forall|i: int| 0 <= i < 81 implies cell_wf(
                                #[trigger] self.state@[i],
                            ) by {
                                assert(self.state@[i] == clear_result(
                                    s0,
                                    cells@.take(idx as int),
                                    mask_off,
                                )[i]);
                                if in_cells(cells@.take(idx as int), i) && s0[i] is Unsolved {
                                    let k = choose|k: int|
                                        0 <= k < idx && (#[trigger] cells@.take(idx as int)[k]).0
                                            == i;
                                    assert(cells@[k].0 == i);
                                    assert(cell_mask(s0[i]) & mask_off != 0);
                                    lemma_popcount_le(cell_mask(s0[i]) & mask_off);
                                    assert((cell_mask(s0[i]) & mask_off) <= cell_mask(s0[i]));
                                }
                            }
                            assert(0 <= idx < cells@.len() && self.state@ =~= clear_result(
                                s0,
                                cells@.take(idx as int),
                                mask_off,
                            ) && s0[cells@[idx as int].0 as int] is Unsolved && cell_mask(
                                s0[cells@[idx as int].0 as int],
                            ) & mask_off == 0);
                        }
                        return Err(());
                    }
                    self.state.set(
                        ci,
                        CellState::Unsolved(Possibilities { mask: new_mask, count: new_count }),
                    );
                    proof {
                        assert(cells@.take(idx + 1).drop_last() =~= cells@.take(idx as int));
                        assert forall|i: int| 0 <= i < 81 implies self.state@[i] == clear_result(
                            s0,
                            cells@.take(idx + 1),
                            mask_off,
                        )[i] by {
                            if i != ci as int {
                                assert(in_cells(cells@.take(idx + 1), i) == in_cells(
                                    cells@.take(idx as int),
                                    i,
                                )) by {
                                    if in_cells(cells@.take(idx + 1), i) {
                                        let k = choose|k: int|
                                            0 <= k < idx + 1 && (#[trigger] cells@.take(
                                                idx + 1,
                                            )[k]).0 == i;
                                        assert(k < idx);
                                        assert(cells@.take(idx as int)[k].0 == i);
                                    }
                                    if in_cells(cells@.take(idx as int), i) {
                                        let k = choose|k: int|
                                            0 <= k < idx && (#[trigger] cells@.take(
                                                idx as int,
                                            )[k]).0 == i;
                                        assert(cells@.take(idx + 1)[k].0 == i);
                                    }
                                }
                            } else {
                                assert(cells@.take(idx + 1)[idx as int].0 == i);
                                assert(in_cells(cells@.take(idx + 1), i));
                            }
                        }
                    }
                },
                CellState::Solved(_) => {
                    proof {
                        assert(pre[ci as int] == clear_result(
                            s0,
                            cells@.take(idx as int),
                            mask_off,
                        )[ci as int]);
                        assert(s0[ci as int] is Solved);
                        assert(cells@.take(idx + 1).drop_last() =~= cells@.take(idx as int));
                        assert forall|i: int| 0 <= i < 81 implies self.state@[i] == clear_result(
                            s0,
                            cells@.take(idx + 1),
                            mask_off,
                        )[i] by {
                            if i != ci as int {
                                assert(in_cells(cells@.take(idx + 1), i) == in_cells(
                                    cells@.take(idx as int),
                                    i,
                                )) by {
                                    if in_cells(cells@.take(idx + 1), i) {
                                        let k = choose|k: int|
                                            0 <= k < idx + 1 && (#[trigger] cells@.take(
                                                idx + 1,
                                            )[k]).0 == i;
                                        assert(k < idx);
                                        assert(cells@.take(idx as int)[k].0 == i);
                                    }
                                    if in_cells(cells@.take(idx as int), i) {
                                        let k = choose|k: int|
                                            0 <= k < idx && (#[trigger] cells@.take(
                                                idx as int,
                                            )[k]).0 == i;
                                        assert(cells@.take(idx + 1)[k].0 == i);
                                    }
                                }
                            }
                        }
                    }
                },
            }
            idx = idx + 1;
        }
        proof {
            assert(cells@.take(cells@.len() as int) =~= cells@);
            lemma_mask_facts();
            assert(pass_cond(s0, cells@, mask_off));
            assert forall|i: int| 0 <= i < 81 implies cell_wf(#[trigger] self.state@[i]) by {
                if in_cells(cells@, i) && s0[i] is Unsolved {
                    let k = choose|k: int| 0 <= k < cells@.len() && (#[trigger] cells@[k]).0 == i;
                    assert(cell_mask(s0[i]) & mask_off != 0);
                    lemma_popcount_le(cell_mask(s0[i]) & mask_off);
                    assert((cell_mask(s0[i]) & mask_off) <= cell_mask(s0[i]));
                    assert(self.state@[i] == clear_result(s0, cells@, mask_off)[i]);
                } else {
                    assert(self.state@[i] == s0[i]);
                }
            }
        }
        Ok(())
    }

    /// Assigns digit `val` (stored form, `0..=8`) to `cell` and propagates:
    /// the digit is cleared from the candidates of every other unsolved cell
    /// of the cell's row, column and block. Fails when the cell already holds
    /// a different digit or when `val` is no longer a candidate (the board is
    /// then unchanged), or when the propagation would leave a peer without
    /// candidates (the board is then partially propagated and must be
    /// discarded).
    pub fn mark(&mut self, cell: Cell, val: u8) -> (r: Result<
        u8,
        ContradicoryAssignmentError,
    >)
        requires
            board_wf(old(self).state@),
            cell.0 < 81,
            val <= 8,
        ensures
            final(self).state@.len() == 81,
            r is Ok <==> mark_ok(old(self).state@, cell.0 as int, val as int),
            r is Ok ==> final(self).state@ =~= mark_result(
                old(self).state@,
                cell.0 as int,
                val as int,
            ),
            r is Ok ==> board_wf(final(self).state@),
            r is Ok ==> r->Ok_0 == val,
            r is Err ==> r->Err_0.target == cell && r->Err_0.attempted_val == val,
            r is Err && old(self).state@[cell.0 as int] is Solved ==> final(self).state@ == old(
                self,
            ).state@ && r->Err_0.solved_val == Some(old(self).state@[cell.0 as int]->Solved_0),
            r is Err && old(self).state@[cell.0 as int] is Unsolved ==> r->Err_0.solved_val
                is None,
            r is Err && old(self).state@[cell.0 as int] is Unsolved && cell_mask(
                old(self).state@[cell.0 as int],
            ) & digit_mask(val as int) == 0 ==> final(self).state@ == old(self).state@,
            r is Err && old(self).state@[cell.0 as int] is Unsolved && cell_mask(
                old(self).state@[cell.0 as int],
            ) & digit_mask(val as int) != 0 ==> final(self).state@[cell.0 as int]
                == CellState::Solved(val),
            forall|i: int|
                0 <= i < 81 && old(self).state@[i] is Solved ==> final(self).state@[i] == old(
                    self,
                ).state@[i],
    {
        let ghost s0 = self.state@;
        let ghost c = cell.0 as int;
        let ghost d = val as int;
        let ci = cell.0 as usize;
        let current_val = self.state[ci];
        match current_val {
            CellState::Solved(already_marked) => {
                if already_marked != val {
                    Err(
                        ContradicoryAssignmentError {
                            target: cell,
                            attempted_val: val,
                            solved_val: Some(already_marked),
                        },
                    )
                } else {
                    Ok(val)
                }
            },
            CellState::Unsolved(possibilies) => {
                let value_mask = number_to_mask(val);
                if possibilies.mask & value_mask > 0 {
                    let mask_away = value_mask ^ 0xFFFF;
                    proof {
                        lemma_mask_facts();
                        assert(value_mask == digit_mask(d));
                        assert(mask_away == !digit_mask(d));
                    }
                    self.state.set(ci, CellState::Solved(val));
                    let ghost s1 = self.state@;
                    proof {
                        assert(s1 =~= s0.update(c, CellState::Solved(val)));
                    }
                    let row_cells = cell.row().cells();
                    let col_cells = cell.col().cells();
                    let block_cells = cell.block().cells();
                    proof {
                        assert forall|i: int| 0 <= i < 81 implies (in_cells(row_cells@, i)
                            <==> crate::calc::row_of_idx(i) == crate::calc::row_of_idx(c)) by {
                            crate::calc::lemma_row_house(c, i);
                            if in_cells(row_cells@, i) {
                                let k = choose|k: int|
                                    0 <= k < row_cells@.len() && (#[trigger] row_cells@[k]).0 == i;
                                assert(i == crate::calc::Row((c / 9) as u8).house_cell(k));
                            }
                            if crate::calc::row_of_idx(i) == crate::calc::row_of_idx(c) {
                                let k = choose|k: int|
                                    0 <= k < 9 && i == #[trigger] crate::calc::Row(
                                        (c / 9) as u8,
                                    ).house_cell(k);
                                assert(row_cells@[k].0 == i);
                            }
                        }
                        assert forall|i: int| 0 <= i < 81 implies (in_cells(col_cells@, i)
                            <==> crate::calc::col_of_idx(i) == crate::calc::col_of_idx(c)) by {
                            crate::calc::lemma_col_house(c, i);
                            if in_cells(col_cells@, i) {
                                let k = choose|k: int|
                                    0 <= k < col_cells@.len() && (#[trigger] col_cells@[k]).0 == i;
                                assert(i == crate::calc::Col((c % 9) as u8).house_cell(k));
                            }
                            if crate::calc::col_of_idx(i) == crate::calc::col_of_idx(c) {
                                let k = choose|k: int|
                                    0 <= k < 9 && i == #[trigger] crate::calc::Col(
                                        (c % 9) as u8,
                                    ).house_cell(k);
                                assert(col_cells@[k].0 == i);
                            }
                        }
                        assert forall|i: int| 0 <= i < 81 implies (in_cells(block_cells@, i)
                            <==> crate::calc::block_of_idx(i) == crate::calc::block_of_idx(c)) by {
                            crate::calc::lemma_block_house(c, i);
                            if in_cells(block_cells@, i) {
                                let k = choose|k: int|
                                    0 <= k < block_cells@.len() && (#[trigger] block_cells@[k]).0
                                        == i;
                                assert(i == crate::calc::Block(
                                    crate::calc::block_of_idx(c) as u8,
                                ).house_cell(k));
                            }
                            if crate::calc::block_of_idx(i) == crate::calc::block_of_idx(c) {
                                let k = choose|k: int|
                                    0 <= k < 9 && i == #[trigger] crate::calc::Block(
                                        crate::calc::block_of_idx(c) as u8,
                                    ).house_cell(k);
                                assert(block_cells@[k].0 == i);
                            }
                        }
                        lemma_mark_combine(s0, c, d, mask_away, row_cells@, col_cells@, block_cells@);
                    }
                    let a = self.mark_of_cells(mask_away, &row_cells);
                    let b = self.mark_of_cells(mask_away, &col_cells);
                    let cc = self.mark_of_cells(mask_away, &block_cells);
                    if a.is_err() || b.is_err() || cc.is_err() {
                        return Err(
                            ContradicoryAssignmentError {
                                target: cell,
                                attempted_val: val,
                                solved_val: None,
                            },
                        );
                    }
                    proof {
                        assert(self.state@ =~= mark_result(s0, c, d));
                    }
                } else {
                    return Err(
                        ContradicoryAssignmentError {
                            target: cell,
                            attempted_val: val,
                            solved_val: None,
                        },
                    );
                }
                Ok(val)
            },
        }
    }

    /// Builds a board from 81 digits (`0` marks a blank) by assigning every
    /// given in index order; a contradictory puzzle fails immediately.
    pub fn from_puzzle(fields: Vec<u8>) -> (r: Result<Self, UnsolvableError>)
        requires
            fields@.len() == 81,
            forall|i: int| 0 <= i < 81 ==> #[trigger] fields@[i] <= 9,
        ensures
            r is Ok <==> apply_givens(initial_state(), fields@, 81) is Some,
            r is Ok ==> r->Ok_0.state@ == apply_givens(initial_state(), fields@, 81)->Some_0,
            r is Ok ==> board_wf(r->Ok_0.state@),
            r is Ok ==> forall|i: int|
                0 <= i < 81 && fields@[i] != 0 ==> r->Ok_0.state@[i] == CellState::Solved(
                    (fields@[i] - 1) as u8,
                ),
            r is Ok ==> forall|i: int|
                0 <= i < 81 && fields@[i] == 0 ==> r->Ok_0.state@[i] is Unsolved,
    {
        let mut board = Board::new();
        let mut i: usize = 0;
        while i < 81
            invariant
                i <= 81,
                fields@.len() == 81,
                forall|j: int| 0 <= j < 81 ==> #[trigger] fields@[j] <= 9,
                board.state@.len() == 81,
                board_wf(board.state@),
                apply_givens(initial_state(), fields@, i as int) is Some,
                board.state@ == apply_givens(initial_state(), fields@, i as int)->Some_0,
                forall|j: int|
                    0 <= j < i as int && fields@[j] != 0 ==> board.state@[j] == CellState::Solved(
                        (fields@[j] - 1) as u8,
                    ),
                forall|j: int|
                    0 <= j < 81 && #[trigger] board.state@[j] is Solved ==> j < i as int
                        && fields@[j] != 0,
            decreases 81 - i,
        {
            let ghost pre = board.state@;
            let given = fields[i];
            if given != 0 {
                let mark_err = board.mark(Cell(i as u8), given - 1).is_err();
                if mark_err {
                    proof {
                        assert(apply_givens(initial_state(), fields@, i + 1) is None);
                        lemma_apply_givens_none(initial_state(), fields@, i + 1, 81);
                    }
                    return Err(UnsolvableError {});
                }
                proof {
                    assert(board.state@ == mark_result(pre, i as int, given - 1));
                    assert(apply_givens(initial_state(), fields@, i + 1)->Some_0 == board.state@);
                    assert(pre[i as int] is Unsolved);
                    assert forall|j: int|
                        0 <= j < 81 && #[trigger] board.state@[j] is Solved implies j < i + 1
                        && fields@[j] != 0 by {
                        if j != i as int {
                            assert(board.state@[j] is Solved ==> pre[j] is Solved);
                        }
                    }
                }
            }
            i = i + 1;
        }
        Ok(board)
    }

    /// The first unsolved cell holding the fewest candidates, with its
    /// candidate snapshot; `None` when the board is complete.
    pub fn most_certain(&self) -> (r: Option<(Cell, Possibilities)>)
        requires
            board_wf(self.state@),
        ensures
            r is None <==> all_solved(self.state@),
            r is Some ==> r->Some_0.0.0 < 81 && self.state@[r->Some_0.0.0 as int]
                == CellState::Unsolved(r->Some_0.1),
            r is Some ==> forall|j: int|
                0 <= j < 81 && #[trigger] self.state@[j] is Unsolved ==> r->Some_0.1.count as int
                    <= cell_count(self.state@[j]),
            r is Some ==> forall|j: int|
                0 <= j < r->Some_0.0.0 as int && #[trigger] self.state@[j] is Unsolved
                    ==> cell_count(self.state@[j]) > r->Some_0.1.count as int,
    {
        let mut most_certain: u8 = 255;
        let mut most_certain_count: u8 = 255;
        let mut best = Possibilities { mask: 0, count: 0 };

        let mut i: usize = 0;
        while i < 81
            invariant
                i <= 81,
                board_wf(self.state@),
                (most_certain == 255) <==> (forall|j: int|
                    0 <= j < i as int ==> !(#[trigger] self.state@[j] is Unsolved)),
                most_certain != 255 ==> (most_certain as int) < i as int && self.state@[most_certain as int]
                    == CellState::Unsolved(best) && best.count == most_certain_count && (forall|
                    j: int,
                |
                    0 <= j < i as int && #[trigger] self.state@[j] is Unsolved ==> cell_count(
                        self.state@[j],
                    ) >= most_certain_count as int) && (forall|j: int|
                    0 <= j < most_certain as int && #[trigger] self.state@[j] is Unsolved
                        ==> cell_count(self.state@[j]) > most_certain_count as int),
                most_certain == 255 ==> most_certain_count == 255,
            decreases 81 - i,
        {
            if let CellState::Unsolved(possibilities) = self.state[i] {
                proof {
                    assert(cell_wf(self.state@[i as int]));
                    lemma_popcount_le(possibilities.mask);
                }
                if most_certain_count > possibilities.count {
                    most_certain_count = possibilities.count;
                    most_certain = i as u8;
                    best = possibilities;
                }
            }
            i = i + 1;
        }

        if most_certain == 255 {
            None
        } else {
            Some((Cell(most_certain), best))
        }
    }

    /// The canonical 81-character rendering: one digit per cell, `0` for an
    /// unsolved cell.
    pub fn to_1d_string(&self) -> (s: String)
        requires
            self.state@.len() == 81,
            forall|i: int| 0 <= i < 81 ==> cell_wf(#[trigger] self.state@[i]),
        ensures
            s@.len() == 81,
            forall|i: int| 0 <= i < 81 ==> s@[i] == cell_char(#[trigger] self.state@[i]),
    {
        let mut a = String::new();

        let mut i: usize = 0;
        while i < 81
            invariant
                i <= 81,
                self.state@.len() == 81,
                forall|j: int| 0 <= j < 81 ==> cell_wf(#[trigger] self.state@[j]),
                a@.len() == i as int,
                forall|j: int| 0 <= j < i as int ==> a@[j] == cell_char(#[trigger] self.state@[j]),
            decreases 81 - i,
        {
            let lit = match self.state[i] {
                CellState::Solved(num) => {
                    match num {
                        0 => "1",
                        1 => "2",
                        2 => "3",
                        3 => "4",
                        4 => "5",
                        5 => "6",
                        6 => "7",
                        7 => "8",
                        _ => "9",
                    }
                },
                CellState::Unsolved(_) => "0",
            };
            proof {
                reveal_strlit("0");
                reveal_strlit("1");
                reveal_strlit("2");
                reveal_strlit("3");
                reveal_strlit("4");
                reveal_strlit("5");
                reveal_strlit("6");
                reveal_strlit("7");
                reveal_strlit("8");
                reveal_strlit("9");
                assert(lit@.len() == 1 && lit@[0] == cell_char(self.state@[i as int]));
            }
            a.append(lit);
            i = i + 1;
        }

        a
    }

    /// The cells' numeric values: one entry per cell, `0` for an unsolved
    /// cell.
    pub fn to_nums(&self) -> (v: Vec<u8>)
        requires
            self.state@.len() == 81,
            forall|i: int| 0 <= i < 81 ==> cell_wf(#[trigger] self.state@[i]),
        ensures
            v@.len() == 81,
            forall|i: int| 0 <= i < 81 ==> v@[i] == cell_num(#[trigger] self.state@[i]),
            forall|i: int| 0 <= i < 81 ==> #[trigger] v@[i] <= 9,
    {
        let mut v: Vec<u8> = Vec::new();
        let mut i: usize = 0;
        while i < 81
            invariant
                i <= 81,
                self.state@.len() == 81,
                forall|j: int| 0 <= j < 81 ==> cell_wf(#[trigger] self.state@[j]),
                v@.len() == i as int,
                forall|j: int| 0 <= j < i as int ==> v@[j] == cell_num(#[trigger] self.state@[j]),
                forall|j: int| 0 <= j < i as int ==> #[trigger] v@[j] <= 9,
            decreases 81 - i,
        {
            match self.state[i] {
                CellState::Solved(num) => {
                    v.push(num + 1);
                },
                CellState::Unsolved(_) => {
                    v.push(0);
                },
            }
            i = i + 1;
        }
        v
    }
}

} // verus!
