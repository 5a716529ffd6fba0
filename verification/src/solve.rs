//! Recursive backtracking search over `Board`, most-constrained cell first,
//! with an optional uniqueness-proof mode.
use vstd::prelude::*;

use crate::board::{
    all_solved, board_wf, extends, is_solution_of, mark_result, num_unsolved, two_solutions,
    Board, CellState,
};
use crate::calc::number_to_mask;
use crate::errors::NonUniqueError;

verus! {

/// Solves `board` by depth-first search: each step clones the board, assigns
/// one candidate of the first most-constrained cell, and recurses. With
/// `prove_unique` off, the first completion is returned; with it on, the
/// search continues and fails as soon as a second distinct completion shows
/// up. The search is exhaustive: a completion comes back whenever one
/// exists, `Ok(None)` comes back exactly when none exists, and in the
/// uniqueness mode the error comes back exactly when two or more exist (so
/// a unique completion is returned as such).
pub fn solve(board: Board, prove_unique: bool) -> (r: Result<Option<Board>, NonUniqueError>)
    requires
        board_wf(board.state@),
    ensures
        r is Ok && r->Ok_0 is Some ==> is_solution_of(r->Ok_0->Some_0.state@, board.state@),
        r is Ok && r->Ok_0 is None ==> !(exists|t: Seq<CellState>|
            is_solution_of(t, board.state@)),
        r is Err ==> prove_unique && two_solutions(board.state@),
        prove_unique && two_solutions(board.state@) ==> r is Err,
        !prove_unique && (exists|t: Seq<CellState>| is_solution_of(t, board.state@)) ==> r is Ok
            && r->Ok_0 is Some,
    decreases num_unsolved(board.state@),
{
    let next = board.most_certain();
    match next {
        None => {
            proof {
                assert(is_solution_of(board.state@, board.state@));
                crate::board::lemma_complete_board_solutions(board.state@);
                assert(!two_solutions(board.state@)) by {
                    if two_solutions(board.state@) {
                        let (t1, t2) = choose|t1: Seq<CellState>, t2: Seq<CellState>|
                            #[trigger] is_solution_of(t1, board.state@) && #[trigger]
                            is_solution_of(t2, board.state@) && t1 != t2;
                        assert(t1 == board.state@ && t2 == board.state@);
                    }
                }
            }
            Ok(Some(board))
        },
        Some((next_cell, possibilities)) => {
            let ghost c = next_cell.0 as int;
            let mut already_found: Option<Board> = None;
            let mut i: u8 = 0;
            while i < 9
                invariant
                    i <= 9,
                    board_wf(board.state@),
                    next_cell.0 < 81,
                    c == next_cell.0 as int,
                    board.state@[c] == CellState::Unsolved(possibilities),
                    already_found is Some ==> prove_unique && is_solution_of(
                        already_found->0.state@,
                        board.state@,
                    ) && already_found->0.state@[c] is Solved && crate::board::cell_digit(
                        already_found->0.state@[c],
                    ) < i as int,
                    forall|t: Seq<CellState>|
                        #[trigger] is_solution_of(t, board.state@) && crate::board::cell_digit(
                            t[c],
                        ) < i as int ==> already_found is Some && t == already_found->0.state@,
                decreases 9 - i,
            {
                if possibilities.mask & number_to_mask(i) != 0 {
                    let mut new_board = board.clone();
                    let marking = new_board.mark(next_cell, i);
                    if !marking.is_err() {
                        proof {
                            assert(new_board.state@ =~= mark_result(board.state@, c, i as int));
                            crate::board::lemma_mark_result_kinds(board.state@, c, i as int);
                            crate::board::lemma_mark_unsolved_decreases(
                                board.state@,
                                new_board.state@,
                                c,
                            );
                            crate::board::lemma_branch_solutions(board.state@, c, i as int);
                        }

                        let sub_ret = solve(new_board, prove_unique);

                        if let Ok(Some(solved_board)) = sub_ret {
                            proof {
                                assert(extends(board.state@, new_board.state@));
                                assert forall|k: int|
                                    0 <= k < 81 && #[trigger] board.state@[k] is Solved implies
                                    solved_board.state@[k] == board.state@[k] by {
                                    assert(new_board.state@[k] == board.state@[k]);
                                }
                                assert(solved_board.state@[c] == new_board.state@[c]);
                                assert(new_board.state@[c] == CellState::Solved(i));
                            }
                            if !prove_unique {
                                return Ok(Some(solved_board));
                            } else if already_found.is_none() {
                                proof {
                                    // within this branch the completion is
                                    // unique, since the recursion did not
                                    // report two
                                    assert forall|t: Seq<CellState>|
                                        #[trigger] is_solution_of(t, board.state@)
                                            && crate::board::cell_digit(t[c]) < i + 1 implies t
                                        == solved_board.state@ by {
                                        if crate::board::cell_digit(t[c]) < i as int {
                                            assert(already_found is Some);
                                            assert(false);
                                        } else {
                                            assert(t[c] is Solved && crate::board::cell_digit(
                                                t[c],
                                            ) == i as int);
                                            assert(t[c] == CellState::Solved(i));
                                            assert(is_solution_of(t, new_board.state@));
                                            assert(!two_solutions(new_board.state@));
                                            crate::board::lemma_unique_solution(
                                                new_board.state@,
                                                t,
                                                solved_board.state@,
                                            );
                                        }
                                    }
                                }
                                already_found = Some(solved_board);
                            } else {
                                proof {
                                    let t1 = already_found->0.state@;
                                    let t2 = solved_board.state@;
                                    assert(crate::board::cell_digit(t1[c])
                                        != crate::board::cell_digit(t2[c]));
                                    assert(t1 != t2);
                                    assert(is_solution_of(t1, board.state@) && is_solution_of(
                                        t2,
                                        board.state@,
                                    ) && t1 != t2);
                                }
                                return Err(NonUniqueError {});
                            }
                        } else if let Err(err) = sub_ret {
                            proof {
                                let (w1, w2) = choose|w1: Seq<CellState>, w2: Seq<CellState>|
                                    #[trigger] is_solution_of(w1, new_board.state@)
                                        && #[trigger] is_solution_of(w2, new_board.state@) && w1
                                        != w2;
                                assert(extends(board.state@, new_board.state@));
                                assert forall|k: int|
                                    0 <= k < 81 && #[trigger] board.state@[k] is Solved implies
                                    w1[k] == board.state@[k] && w2[k] == board.state@[k] by {
                                    assert(new_board.state@[k] == board.state@[k]);
                                }
                                assert(is_solution_of(w1, board.state@) && is_solution_of(
                                    w2,
                                    board.state@,
                                ) && w1 != w2);
                            }
                            return Err(err);
                        } else {
                            proof {
                                // the branch has no completion, so no
                                // completion of the board uses this digit
                                assert forall|t: Seq<CellState>|
                                    #[trigger] is_solution_of(t, board.state@)
                                        && crate::board::cell_digit(t[c]) == i as int implies
                                    false by {
                                    assert(t[c] is Solved);
                                    assert(t[c] == CellState::Solved(i));
                                    assert(is_solution_of(t, new_board.state@));
                                }
                            }
                        }
                    } else {
                        proof {
                            // the assignment itself fails, so no completion
                            // of the board uses this digit
                            assert forall|t: Seq<CellState>|
                                #[trigger] is_solution_of(t, board.state@)
                                    && crate::board::cell_digit(t[c]) == i as int implies
                                false by {
                                crate::board::lemma_solution_forces_mark(board.state@, t, c);
                            }
                        }
                    }
                } else {
                    proof {
                        // the digit is no candidate here, so no completion
                        // of the board uses it
                        assert forall|t: Seq<CellState>|
                            #[trigger] is_solution_of(t, board.state@)
                                && crate::board::cell_digit(t[c]) == i as int implies false by {
                            crate::board::lemma_solution_digit_in_mask(board.state@, t, c);
                            assert(crate::board::cell_mask(board.state@[c])
                                == possibilities.mask);
                            assert(crate::board::digit_mask(i as int) == 1u16 << (i as u16));
                        }
                    }
                }
                i = i + 1;
            }
            proof {
                // every completion carries a digit below nine at the cell,
                // so the loop has accounted for all of them
                assert forall|t: Seq<CellState>|
                    #[trigger] is_solution_of(t, board.state@) implies already_found is Some && t
                    == already_found->0.state@ by {
                    assert(t[c] is Solved);
                    assert(crate::board::cell_wf(t[c]));
                    assert(crate::board::cell_digit(t[c]) < 9);
                }
            }
            if let Some(found) = already_found {
                proof {
                    assert(!two_solutions(board.state@)) by {
                        if two_solutions(board.state@) {
                            let (t1, t2) = choose|t1: Seq<CellState>, t2: Seq<CellState>|
                                #[trigger] is_solution_of(t1, board.state@) && #[trigger]
                                is_solution_of(t2, board.state@) && t1 != t2;
                            assert(t1 == found.state@ && t2 == found.state@);
                        }
                    }
                }
                return Ok(Some(found));
            }
            proof {
                assert(!(exists|t: Seq<CellState>| is_solution_of(t, board.state@)));
                assert(!two_solutions(board.state@)) by {
                    if two_solutions(board.state@) {
                        let (t1, t2) = choose|t1: Seq<CellState>, t2: Seq<CellState>|
                            #[trigger] is_solution_of(t1, board.state@) && #[trigger]
                            is_solution_of(t2, board.state@) && t1 != t2;
                        assert(false);
                    }
                }
            }
            Ok(None)
        },
    }
}

/// The row `h` holds a solved `d`.
pub open spec fn row_has_digit(s: Seq<CellState>, h: int, d: int) -> bool {
    exists|i: int|
        0 <= i < 81 && #[trigger] crate::calc::row_of_idx(i) == h && s[i] == CellState::Solved(
            d as u8,
        )
}

/// The column `h` holds a solved `d`.
pub open spec fn col_has_digit(s: Seq<CellState>, h: int, d: int) -> bool {
    exists|i: int|
        0 <= i < 81 && #[trigger] crate::calc::col_of_idx(i) == h && s[i] == CellState::Solved(
            d as u8,
        )
}

/// The block `h` holds a solved `d`.
pub open spec fn block_has_digit(s: Seq<CellState>, h: int, d: int) -> bool {
    exists|i: int|
        0 <= i < 81 && #[trigger] crate::calc::block_of_idx(i) == h && s[i] == CellState::Solved(
            d as u8,
        )
}

/// Nine pairwise distinct digits below nine cover every digit below nine.
proof fn lemma_distinct_digits_cover(digs: Seq<int>)
    requires
        digs.len() == 9,
        forall|k: int| 0 <= k < 9 ==> 0 <= #[trigger] digs[k] < 9,
        forall|k1: int, k2: int|
            0 <= k1 < 9 && 0 <= k2 < 9 && k1 != k2 ==> digs[k1] != digs[k2],
    ensures
        forall|d: int| 0 <= d < 9 ==> digs.contains(d),
{
    assert(digs.no_duplicates());
    digs.unique_seq_to_set();
    let a = digs.to_set();
    let b = vstd::set_lib::set_int_range(0, 9);
    vstd::set_lib::lemma_int_range(0, 9);
    assert forall|d: int| 0 <= d < 9 implies digs.contains(d) by {
        if !digs.contains(d) {
            assert(a.subset_of(b.remove(d))) by {
                assert forall|x: int| a.contains(x) implies b.remove(d).contains(x) by {
                    let k = choose|k: int| 0 <= k < digs.len() && digs[k] == x;
                    assert(0 <= x < 9);
                    assert(x != d);
                }
            }
            assert(b.remove(d).len() == 8);
            vstd::set_lib::lemma_len_subset(a, b.remove(d));
            assert(false);
        }
    }
}

/// On a complete well-formed board every row, column and block is a
/// permutation of the nine digits: the solved digits of one house are
/// pairwise distinct (part of well-formedness) and, as this lemma states,
/// every digit occurs in every house. Boards returned by `solve` satisfy the
/// hypotheses by `solve`'s postcondition.
pub proof fn lemma_houses_are_permutations(s: Seq<CellState>)
    requires
        board_wf(s),
        all_solved(s),
    ensures
        forall|h: int, d: int| 0 <= h < 9 && 0 <= d < 9 ==> #[trigger] row_has_digit(s, h, d),
        forall|h: int, d: int| 0 <= h < 9 && 0 <= d < 9 ==> #[trigger] col_has_digit(s, h, d),
        forall|h: int, d: int| 0 <= h < 9 && 0 <= d < 9 ==> #[trigger] block_has_digit(s, h, d),
{
    assert forall|h: int, d: int| 0 <= h < 9 && 0 <= d < 9 implies #[trigger] row_has_digit(
        s,
        h,
        d,
    ) by {
        let digs = Seq::new(9, |k: int| crate::board::cell_digit(s[h * 9 + k]));
        assert forall|k: int| 0 <= k < 9 implies 0 <= #[trigger] digs[k] < 9 by {
            assert(crate::board::cell_wf(s[h * 9 + k]));
            assert(s[h * 9 + k] is Solved);
        }
        assert forall|k1: int, k2: int|
            0 <= k1 < 9 && 0 <= k2 < 9 && k1 != k2 implies digs[k1] != digs[k2] by {
            crate::calc::lemma_divmod(h * 9 + k1, 9, h, k1);
            crate::calc::lemma_divmod(h * 9 + k2, 9, h, k2);
            assert(crate::calc::is_peer(h * 9 + k1, h * 9 + k2));
            assert(s[h * 9 + k1] is Solved && s[h * 9 + k2] is Solved);
        }
        lemma_distinct_digits_cover(digs);
        assert(digs.contains(d));
        let k = choose|k: int| 0 <= k < 9 && digs[k] == d;
        let i = h * 9 + k;
        crate::calc::lemma_divmod(i, 9, h, k);
        assert(crate::calc::row_of_idx(i) == h);
        assert(crate::board::cell_wf(s[i]) && s[i] is Solved && crate::board::cell_digit(s[i])
            == d);
        assert(s[i] == CellState::Solved(d as u8));
    }
    assert forall|h: int, d: int| 0 <= h < 9 && 0 <= d < 9 implies #[trigger] col_has_digit(
        s,
        h,
        d,
    ) by {
        let digs = Seq::new(9, |k: int| crate::board::cell_digit(s[h + k * 9]));
        assert forall|k: int| 0 <= k < 9 implies 0 <= #[trigger] digs[k] < 9 by {
            assert(crate::board::cell_wf(s[h + k * 9]));
            assert(s[h + k * 9] is Solved);
        }
        assert forall|k1: int, k2: int|
            0 <= k1 < 9 && 0 <= k2 < 9 && k1 != k2 implies digs[k1] != digs[k2] by {
            crate::calc::lemma_divmod(h + k1 * 9, 9, k1, h);
            crate::calc::lemma_divmod(h + k2 * 9, 9, k2, h);
            assert(crate::calc::is_peer(h + k1 * 9, h + k2 * 9));
            assert(s[h + k1 * 9] is Solved && s[h + k2 * 9] is Solved);
        }
        lemma_distinct_digits_cover(digs);
        assert(digs.contains(d));
        let k = choose|k: int| 0 <= k < 9 && digs[k] == d;
        let i = h + k * 9;
        crate::calc::lemma_divmod(i, 9, k, h);
        assert(crate::calc::col_of_idx(i) == h);
        assert(s[i] == CellState::Solved(d as u8));
    }
    assert forall|h: int, d: int| 0 <= h < 9 && 0 <= d < 9 implies #[trigger] block_has_digit(
        s,
        h,
        d,
    ) by {
        let base = h / 3 * 27 + h % 3 * 3;
        let digs = Seq::new(9, |k: int| crate::board::cell_digit(s[base + k / 3 * 9 + k % 3]));
        assert forall|k: int| 0 <= k < 9 implies 0 <= #[trigger] digs[k] < 9 by {
            lemma_block_cell(h, k);
            assert(crate::board::cell_wf(s[base + k / 3 * 9 + k % 3]));
            assert(s[base + k / 3 * 9 + k % 3] is Solved);
        }
        assert forall|k1: int, k2: int|
            0 <= k1 < 9 && 0 <= k2 < 9 && k1 != k2 implies digs[k1] != digs[k2] by {
            let j1 = base + k1 / 3 * 9 + k1 % 3;
            let j2 = base + k2 / 3 * 9 + k2 % 3;
            lemma_block_cell(h, k1);
            lemma_block_cell(h, k2);
            assert(j1 != j2) by {
                if j1 == j2 {
                    crate::calc::lemma_divmod(j1, 9, h / 3 * 3 + k1 / 3, h % 3 * 3 + k1 % 3);
                    crate::calc::lemma_divmod(j2, 9, h / 3 * 3 + k2 / 3, h % 3 * 3 + k2 % 3);
                    assert(k1 / 3 == k2 / 3 && k1 % 3 == k2 % 3);
                    assert(k1 == k1 / 3 * 3 + k1 % 3);
                    assert(k2 == k2 / 3 * 3 + k2 % 3);
                }
            }
            assert(crate::calc::is_peer(j1, j2));
            assert(s[j1] is Solved && s[j2] is Solved);
        }
        lemma_distinct_digits_cover(digs);
        assert(digs.contains(d));
        let k = choose|k: int| 0 <= k < 9 && digs[k] == d;
        let i = base + k / 3 * 9 + k % 3;
        lemma_block_cell(h, k);
        assert(s[i] == CellState::Solved(d as u8));
    }
}

/// The `k`-th cell of block `h` lies on the board and in block `h`.
proof fn lemma_block_cell(h: int, k: int)
    requires
        0 <= h < 9,
        0 <= k < 9,
    ensures
        0 <= h / 3 * 27 + h % 3 * 3 + k / 3 * 9 + k % 3 < 81,
        crate::calc::block_of_idx(h / 3 * 27 + h % 3 * 3 + k / 3 * 9 + k % 3) == h,
{
    let j = h / 3 * 27 + h % 3 * 3 + k / 3 * 9 + k % 3;
    assert(j == (h / 3 * 3 + k / 3) * 9 + (h % 3 * 3 + k % 3));
    crate::calc::lemma_divmod(j, 9, h / 3 * 3 + k / 3, h % 3 * 3 + k % 3);
    crate::calc::lemma_divmod(j / 9, 3, h / 3, k / 3);
    crate::calc::lemma_divmod(j % 9, 3, h % 3, k % 3);
}

} // verus!
