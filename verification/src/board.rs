//! The Chomp board: a rectangular chocolate bar from which moves bite out
//! upward-and-rightward closed regions, and a solver that decides whether the
//! player to move can force a win.
//!
//! Coordinates are 1-based `(row, col)` pairs; the square `(1, 1)` is the
//! poison square, and the player forced to take it loses.

#![verifier::loop_isolation(false)]

use vstd::prelude::*;
use vstd::set_lib::lemma_len_subset;

verus! {

broadcast use vstd::seq_lib::group_seq_properties, vstd::seq_lib::seq_to_set_is_finite;

/// The coordinates of a square as mathematical integers.
pub open spec fn sq_int(p: (usize, usize)) -> (int, int) {
    (p.0 as int, p.1 as int)
}

/// A sequence of stored squares, as integer pairs.
pub open spec fn mapped(bar: Seq<(usize, usize)>) -> Seq<(int, int)> {
    bar.map_values(|p: (usize, usize)| sq_int(p))
}

/// `q` lies weakly above and to the right of `s`, so chomping `s` removes `q`.
pub open spec fn in_cone(q: (int, int), s: (int, int)) -> bool {
    q.0 >= s.0 && q.1 >= s.1
}

/// The set of squares removed by chomping `s`.
pub open spec fn cone(s: (int, int)) -> Set<(int, int)> {
    Set::new(|q: (int, int)| in_cone(q, s))
}

/// The squares that survive the filtering step of a chomp at `s`.
pub open spec fn keeps(s: (int, int)) -> spec_fn((int, int)) -> bool {
    |q: (int, int)| !in_cone(q, s)
}

/// The squares that remain after chomping `s` out of `rem`.
pub open spec fn chomp_of(rem: Set<(int, int)>, s: (int, int)) -> Set<(int, int)> {
    rem.difference(cone(s))
}

/// The full `rows x cols` rectangle of squares.
pub open spec fn rect(rows: int, cols: int) -> Set<(int, int)> {
    Set::new(|q: (int, int)| 1 <= q.0 <= rows && 1 <= q.1 <= cols)
}

/// `q` lies inside the `rows x cols` grid.
pub open spec fn in_grid(q: (int, int), rows: int, cols: int) -> bool {
    1 <= q.0 <= rows && 1 <= q.1 <= cols
}

/// The remaining region is downward-and-leftward closed: every square weakly
/// below and to the left of a remaining square also remains.
pub open spec fn staircase(rem: Set<(int, int)>) -> bool {
    forall|q: (int, int), p: (int, int)|
        rem.contains(q) && 1 <= p.0 <= q.0 && 1 <= p.1 <= q.1 ==> rem.contains(p)
}

/// Chomping a remaining square removes at least that square, so the position
/// strictly shrinks.
proof fn lemma_chomp_of_decreases(rem: Set<(int, int)>, s: (int, int))
    requires
        rem.finite(),
        rem.contains(s),
    ensures
        chomp_of(rem, s).finite(),
        chomp_of(rem, s).len() < rem.len(),
{
    let c = chomp_of(rem, s);
    assert(c.subset_of(rem.remove(s)));
    lemma_len_subset(c, rem.remove(s));
}

/// Chomping preserves the staircase property: the removed cone is upward-and-
/// rightward closed, so what remains is still downward-and-leftward closed.
pub proof fn lemma_chomp_preserves_staircase(rem: Set<(int, int)>, s: (int, int))
    requires
        staircase(rem),
    ensures
        staircase(chomp_of(rem, s)),
{
    let rem2 = chomp_of(rem, s);
    assert forall|q: (int, int), p: (int, int)|
        rem2.contains(q) && 1 <= p.0 <= q.0 && 1 <= p.1 <= q.1 implies rem2.contains(p) by {
        assert(rem.contains(p));
        assert(in_cone(p, s) ==> in_cone(q, s));
    }
}

/// The game value of a position: the player to move wins exactly when some
/// legal, non-poison move leaves the opponent in a losing position.  A
/// position whose only square is the poison square (and likewise an empty
/// position) is lost for the mover.
pub open spec fn mover_wins(rem: Set<(int, int)>) -> bool
    decreases rem.len()
        when rem.finite()
        via mover_wins_decreases
{
    exists|s: (int, int)| rem.contains(s) && s != (1int, 1int) && !mover_wins(chomp_of(rem, s))
}

#[via_fn]
proof fn mover_wins_decreases(rem: Set<(int, int)>) {
    assert forall|s: (int, int)| rem.contains(s) implies chomp_of(rem, s).finite() && chomp_of(
        rem,
        s,
    ).len() < rem.len() by {
        lemma_chomp_of_decreases(rem, s);
    }
}

/// A Chomp position: the grid dimensions and the squares not yet chomped.
pub struct Board {
    /// The remaining (un-chomped) squares, without duplicates.
    pub chocolate_bar: Vec<(usize, usize)>,
    /// Number of rows of the full bar, fixed at construction.
    pub rows: usize,
    /// Number of columns of the full bar, fixed at construction.
    pub cols: usize,
}

impl Board {
    /// The remaining squares in storage order, as integer pairs.
    pub open spec fn squares(&self) -> Seq<(int, int)> {
        mapped(self.chocolate_bar@)
    }

    /// The set of remaining squares.
    pub open spec fn rem(&self) -> Set<(int, int)> {
        self.squares().to_set()
    }

    /// Well-formedness: no duplicate squares, every square inside the grid,
    /// and the staircase property of reachable Chomp positions.
    pub open spec fn wf(&self) -> bool {
        &&& self.squares().no_duplicates()
        &&& (forall|q: (int, int)|
            self.rem().contains(q) ==> in_grid(q, self.rows as int, self.cols as int))
        &&& staircase(self.rem())
    }

    /// Creates a full `rows x cols` bar with every square present.
    pub fn new(rows: usize, cols: usize) -> (board: Board)
        requires
            rows >= 1,
            cols >= 1,
        ensures
            board.rows == rows,
            board.cols == cols,
            board.wf(),
            board.rem() == rect(rows as int, cols as int),
    {
        let mut chocolate_bar: Vec<(usize, usize)> = Vec::new();
        let mut row: usize = 0;
        while row < rows
            invariant
                row <= rows,
                mapped(chocolate_bar@).no_duplicates(),
                mapped(chocolate_bar@).to_set() =~= rect_prefix(cols as int, row as int + 1, 1),
            decreases rows - row,
        {
            let mut col: usize = 0;
            while col < cols
                invariant
                    row < rows,
                    col <= cols,
                    mapped(chocolate_bar@).no_duplicates(),
                    mapped(chocolate_bar@).to_set() =~= rect_prefix(
                        cols as int,
                        row as int + 1,
                        col as int + 1,
                    ),
                decreases cols - col,
            {
                let ghost old_seq = mapped(chocolate_bar@);
                chocolate_bar.push((row + 1, col + 1));
                proof {
                    let new_seq = mapped(chocolate_bar@);
                    assert(new_seq =~= old_seq.push((row as int + 1, col as int + 1)));
                    assert(!old_seq.to_set().contains((row as int + 1, col as int + 1)));
                    assert(!old_seq.contains((row as int + 1, col as int + 1)));
                    lemma_no_duplicates_push(old_seq, (row as int + 1, col as int + 1));
                    assert(new_seq.to_set() =~= old_seq.to_set().insert(
                        (row as int + 1, col as int + 1),
                    ));
                }
                col = col + 1;
            }
            row = row + 1;
        }
        let board = Board { chocolate_bar, rows, cols };
        proof {
            assert(board.rem() =~= rect(rows as int, cols as int));
        }
        board
    }

    /// Membership query: is the square at `(row, col)` still present?
    pub fn contains(&self, row: usize, col: usize) -> (present: bool)
        ensures
            present == self.rem().contains((row as int, col as int)),
    {
        let q = (row, col);
        let mut i: usize = 0;
        while i < self.chocolate_bar.len()
            invariant
                i <= self.chocolate_bar@.len(),
                forall|j: int| 0 <= j < i as int ==> self.squares()[j] != sq_int(q),
            decreases self.chocolate_bar@.len() - i,
        {
            let p = self.chocolate_bar[i];
            if p.0 == row && p.1 == col {
                proof {
                    assert(self.squares()[i as int] == sq_int(q));
                    assert(self.squares().contains(sq_int(q)));
                }
                return true;
            }
            i = i + 1;
        }
        proof {
            assert(!self.squares().contains(sq_int(q)));
            assert(!self.rem().contains(sq_int(q)));
        }
        false
    }

    /// The position is terminal exactly when only the poison square remains.
    pub fn is_terminal(&self) -> (terminal: bool)
        requires
            self.wf(),
        ensures
            terminal == (self.rem() =~= set![(1int, 1int)]),
    {
        if self.chocolate_bar.len() == 1 {
            let present = self.contains(1, 1);
            proof {
                if present {
                    let j = choose|j: int|
                        0 <= j < self.squares().len() && self.squares()[j] == (1int, 1int);
                    assert(self.squares() =~= seq![(1int, 1int)]);
                    assert(self.rem() =~= set![(1int, 1int)]);
                } else {
                    assert(set![(1int, 1int)].contains((1int, 1int)));
                }
            }
            present
        } else {
            proof {
                lemma_nonsingleton_board(self);
            }
            false
        }
    }

    /// Chomps the square at `(row, col)`: removes it and every square weakly
    /// above and to the right of it, in one step.  The caller must have
    /// checked membership first; the remaining squares are exactly the old
    /// ones minus the removed cone, the staircase invariant is preserved, and
    /// chomping the poison square empties the board entirely.
    pub fn chomper(&mut self, row: usize, col: usize)
        requires
            old(self).wf(),
            old(self).rem().contains((row as int, col as int)),
        ensures
            final(self).rows == old(self).rows,
            final(self).cols == old(self).cols,
            final(self).wf(),
            final(self).rem() == chomp_of(old(self).rem(), (row as int, col as int)),
            final(self).chocolate_bar@.len() < old(self).chocolate_bar@.len(),
            row == 1 && col == 1 ==> final(self).rem() =~= Set::<(int, int)>::empty()
                && final(self).chocolate_bar@.len() == 0,
    {
        let ghost s = (row as int, col as int);
        let mut kept: Vec<(usize, usize)> = Vec::new();
        let mut i: usize = 0;
        while i < self.chocolate_bar.len()
            invariant
                i <= self.chocolate_bar@.len(),
                *self == *old(self),
                mapped(kept@) == old(self).squares().take(i as int).filter(keeps(s)),
            decreases self.chocolate_bar@.len() - i,
        {
            let p = self.chocolate_bar[i];
            let ghost prev = mapped(kept@);
            let ghost taken = old(self).squares().take(i as int);
            if !(p.0 >= row && p.1 >= col) {
                kept.push(p);
            }
            proof {
                lemma_filter_take_step(old(self).squares(), keeps(s), i as int);
                if !in_cone(sq_int(p), s) {
                    assert(mapped(kept@) =~= prev.push(sq_int(p)));
                }
            }
            i = i + 1;
        }
        proof {
            assert(old(self).squares().take(old(self).squares().len() as int) =~= old(
                self,
            ).squares());
        }
        self.chocolate_bar = kept;
        proof {
            let osq = old(self).squares();
            let fsq = osq.filter(keeps(s));
            lemma_filter_no_duplicates(osq, keeps(s));
            assert forall|q: (int, int)| #[trigger]
                fsq.contains(q) <==> (osq.contains(q) && !in_cone(q, s)) by {
                lemma_filter_contains_iff(osq, keeps(s), q);
            }
            assert(self.rem() =~= chomp_of(old(self).rem(), s));
            lemma_chomp_preserves_staircase(old(self).rem(), s);
            assert forall|q: (int, int)|
                self.rem().contains(q) implies in_grid(
                q,
                self.rows as int,
                self.cols as int,
            ) by {
                assert(old(self).rem().contains(q));
            }
            assert(self.wf());
            // The chomped square itself is gone, so the board strictly shrank.
            old(self).squares().unique_seq_to_set();
            self.squares().unique_seq_to_set();
            lemma_chomp_of_decreases(old(self).rem(), s);
            // Chomping the poison square removes every square of a well-formed
            // board, because every square dominates (1, 1).
            if row == 1 && col == 1 {
                assert forall|j: int| 0 <= j < osq.len() implies !(keeps(s)(osq[j])) by {
                    assert(old(self).rem().contains(osq[j]));
                }
                osq.lemma_all_neg_filter_empty(keeps(s));
                assert(self.rem() =~= Set::<(int, int)>::empty());
            }
        }
    }
}

/// `a` comes strictly before `b` in row-major order.
pub open spec fn earlier(a: (int, int), b: (int, int)) -> bool {
    a.0 < b.0 || (a.0 == b.0 && a.1 < b.1)
}

/// Every remaining non-poison square strictly before row-major position
/// `(r, c)` answers the opponent with a winning position, i.e. is not a
/// winning move.
pub open spec fn no_win_before(rem: Set<(int, int)>, r: int, c: int) -> bool {
    forall|t: (int, int)|
        rem.contains(t) && t != (1int, 1int) && earlier(t, (r, c)) ==> mover_wins(
            chomp_of(rem, t),
        )
}

/// What the solver promises about its result on the remaining set `rem`:
/// a move comes back exactly when the mover can force a win, the move is a
/// legal non-poison square that leaves the opponent in a losing position, and
/// it is the first such square in row-major order.
pub open spec fn winning_move_post(rem: Set<(int, int)>, r: Option<(usize, usize)>) -> bool {
    &&& (r is Some) == mover_wins(rem)
    &&& (r matches Some(s) ==> {
        &&& rem.contains(sq_int(s))
        &&& sq_int(s) != (1int, 1int)
        &&& !mover_wins(chomp_of(rem, sq_int(s)))
        &&& no_win_before(rem, sq_int(s).0, sq_int(s).1)
    })
}

impl Clone for Board {
    /// An independent copy of the position, as the solver's recursion and the
    /// game loop both take.
    fn clone(&self) -> (other: Self)
        ensures
            other.chocolate_bar@ == self.chocolate_bar@,
            other.rows == self.rows,
            other.cols == self.cols,
    {
        let mut bar: Vec<(usize, usize)> = Vec::new();
        let mut i: usize = 0;
        while i < self.chocolate_bar.len()
            invariant
                i <= self.chocolate_bar@.len(),
                bar@ == self.chocolate_bar@.take(i as int),
            decreases self.chocolate_bar@.len() - i,
        {
            let p = self.chocolate_bar[i];
            bar.push(p);
            proof {
                assert(bar@ =~= self.chocolate_bar@.take(i as int + 1));
            }
            i = i + 1;
        }
        proof {
            assert(bar@ =~= self.chocolate_bar@);
        }
        Board { chocolate_bar: bar, rows: self.rows, cols: self.cols }
    }
}

impl Board {
    /// Finds a winning move for the player about to move, if one exists.
    ///
    /// Returns `Some(square)` exactly when the position is a win for the
    /// mover under optimal play by both sides; the returned square is then
    /// the first square in row-major order whose chomp leaves the opponent
    /// with no winning move.  Returns `None` exactly when the position is
    /// lost for the mover (in particular on the terminal position, where only
    /// the poison square remains).  The board itself is left unchanged.
    pub fn winning_move(&mut self) -> (result: Option<(usize, usize)>)
        requires
            old(self).wf(),
        ensures
            *final(self) == *old(self),
            winning_move_post(old(self).rem(), result),
        decreases old(self).chocolate_bar@.len(),
    {
        let ghost rem = self.rem();
        if self.chocolate_bar.len() == 1 && self.contains(1, 1) {
            proof {
                let j = choose|j: int|
                    0 <= j < self.squares().len() && self.squares()[j] == (1int, 1int);
                assert(self.squares() =~= seq![(1int, 1int)]);
                if mover_wins(rem) {
                    let s = choose|s: (int, int)|
                        rem.contains(s) && s != (1int, 1int) && !mover_wins(chomp_of(rem, s));
                    assert(self.squares().contains(s));
                    assert(false);
                }
            }
            return None;
        }
        let mut r: usize = 0;
        while r < self.rows
            invariant
                r <= self.rows,
                no_win_before(rem, r as int + 1, 1),
            decreases self.rows - r,
        {
            let mut c: usize = 0;
            while c < self.cols
                invariant
                    c <= self.cols,
                    no_win_before(rem, r as int + 1, c as int + 1),
                decreases self.cols - c,
            {
                let row = r + 1;
                let col = c + 1;
                let ghost q = (row as int, col as int);
                if !(row == 1 && col == 1) && self.contains(row, col) {
                    let mut new_board = self.clone();
                    new_board.chomper(row, col);
                    let sub = new_board.winning_move();
                    if sub.is_none() {
                        proof {
                            assert(rem.contains(q) && q != (1int, 1int) && !mover_wins(
                                chomp_of(rem, q),
                            ));
                            assert(mover_wins(rem));
                        }
                        return Some((row, col));
                    }
                }
                proof {
                    assert forall|t: (int, int)|
                        rem.contains(t) && t != (1int, 1int) && earlier(
                            t,
                            (q.0, q.1 + 1),
                        ) implies mover_wins(chomp_of(rem, t)) by {
                        if !earlier(t, q) {
                            assert(t == q);
                        }
                    }
                }
                c = c + 1;
            }
            proof {
                assert forall|t: (int, int)|
                    rem.contains(t) && t != (1int, 1int) && earlier(
                        t,
                        (r as int + 2, 1int),
                    ) implies mover_wins(chomp_of(rem, t)) by {
                    assert(in_grid(t, self.rows as int, self.cols as int));
                    assert(earlier(t, (r as int + 1, self.cols as int + 1)));
                }
            }
            r = r + 1;
        }
        proof {
            if mover_wins(rem) {
                let s = choose|s: (int, int)|
                    rem.contains(s) && s != (1int, 1int) && !mover_wins(chomp_of(rem, s));
                assert(in_grid(s, self.rows as int, self.cols as int));
                assert(earlier(s, (self.rows as int + 1, 1int)));
                assert(false);
            }
        }
        None
    }
}

/// The sequence is strictly increasing in row-major order (and so free of
/// duplicates).
pub open spec fn row_major_sorted(s: Seq<(int, int)>) -> bool {
    forall|i: int, j: int| 0 <= i < j < s.len() ==> earlier(s[i], s[j])
}

impl Board {
    /// The remaining squares in row-major (then column-major) order: a
    /// deterministic, restartable traversal for rendering and for
    /// reproducible tie-breaking.
    pub fn iter_remaining_sorted(&self) -> (sorted: Vec<(usize, usize)>)
        requires
            self.wf(),
        ensures
            mapped(sorted@).to_set() == self.rem(),
            row_major_sorted(mapped(sorted@)),
    {
        let mut sorted: Vec<(usize, usize)> = Vec::new();
        let mut r: usize = 0;
        while r < self.rows
            invariant
                r <= self.rows,
                row_major_sorted(mapped(sorted@)),
                forall|i: int|
                    0 <= i < mapped(sorted@).len() ==> earlier(
                        mapped(sorted@)[i],
                        (r as int + 1, 1int),
                    ),
                mapped(sorted@).to_set() =~= Set::new(
                    |q: (int, int)| self.rem().contains(q) && earlier(q, (r as int + 1, 1int)),
                ),
            decreases self.rows - r,
        {
            let mut c: usize = 0;
            while c < self.cols
                invariant
                    c <= self.cols,
                    row_major_sorted(mapped(sorted@)),
                    forall|i: int|
                        0 <= i < mapped(sorted@).len() ==> earlier(
                            mapped(sorted@)[i],
                            (r as int + 1, c as int + 1),
                        ),
                    mapped(sorted@).to_set() =~= Set::new(
                        (|q: (int, int)|
                            self.rem().contains(q) && earlier(
                                q,
                                (r as int + 1, c as int + 1),
                            )),
                    ),
                decreases self.cols - c,
            {
                let ghost q = (r as int + 1, c as int + 1);
                let ghost before = mapped(sorted@);
                if self.contains(r + 1, c + 1) {
                    sorted.push((r + 1, c + 1));
                    proof {
                        assert(mapped(sorted@) =~= before.push(q));
                        assert(mapped(sorted@).to_set() =~= before.to_set().insert(q));
                    }
                }
                proof {
                    assert(mapped(sorted@).to_set() =~= Set::new(
                        (|p: (int, int)|
                            self.rem().contains(p) && earlier(
                                p,
                                (r as int + 1, c as int + 2),
                            )),
                    ));
                }
                c = c + 1;
            }
            proof {
                assert forall|p: (int, int)|
                    self.rem().contains(p) && earlier(p, (r as int + 2, 1int)) implies earlier(
                    p,
                    (r as int + 1, self.cols as int + 1),
                ) by {
                    assert(in_grid(p, self.rows as int, self.cols as int));
                }
                assert(mapped(sorted@).to_set() =~= Set::new(
                    (|q: (int, int)| self.rem().contains(q) && earlier(q, (r as int + 2, 1int))),
                ));
            }
            r = r + 1;
        }
        proof {
            assert forall|q: (int, int)| self.rem().contains(q) implies earlier(
                q,
                (self.rows as int + 1, 1int),
            ) by {
                assert(in_grid(q, self.rows as int, self.cols as int));
            }
            assert(mapped(sorted@).to_set() =~= self.rem());
        }
        sorted
    }
}

/// A single grid row: the squares `(r, 1) .. (r, cols)`.
pub open spec fn row_set(r: int, cols: int) -> Set<(int, int)> {
    Set::new(|q: (int, int)| q.0 == r && 1 <= q.1 <= cols)
}

proof fn lemma_row_set_finite(r: int, cols: int)
    ensures
        row_set(r, cols).finite(),
    decreases cols,
{
    if cols <= 0 {
        assert(row_set(r, cols) =~= Set::<(int, int)>::empty());
    } else {
        lemma_row_set_finite(r, cols - 1);
        assert(row_set(r, cols) =~= row_set(r, cols - 1).insert((r, cols)));
    }
}

/// A rectangle holds finitely many squares.
pub proof fn lemma_rect_finite(rows: int, cols: int)
    ensures
        rect(rows, cols).finite(),
    decreases rows,
{
    if rows <= 0 {
        assert(rect(rows, cols) =~= Set::<(int, int)>::empty());
    } else {
        lemma_rect_finite(rows - 1, cols);
        lemma_row_set_finite(rows, cols);
        assert(rect(rows, cols) =~= rect(rows - 1, cols).union(row_set(rows, cols)));
    }
}

/// A position whose only square is the poison square is lost for the mover:
/// the only move left is the poison square itself.
pub proof fn lemma_poison_alone_is_lost()
    ensures
        !mover_wins(set![(1int, 1int)]),
{
    let rem = set![(1int, 1int)];
    if mover_wins(rem) {
        let s = choose|s: (int, int)|
            rem.contains(s) && s != (1int, 1int) && !mover_wins(chomp_of(rem, s));
        assert(false);
    }
}

/// The classical strategy-stealing argument: on any rectangular board with
/// more than one square, the first player can force a win.  If biting off
/// just the far corner were losing, the opponent's winning answer to it would
/// already have been available (and just as winning) as a first move, because
/// any chomp whatsoever also removes that corner.
pub proof fn lemma_first_player_wins(rows: int, cols: int)
    requires
        rows >= 1,
        cols >= 1,
        !(rows == 1 && cols == 1),
    ensures
        mover_wins(rect(rows, cols)),
{
    let full = rect(rows, cols);
    lemma_rect_finite(rows, cols);
    let corner = (rows, cols);
    assert(full.contains(corner));
    let after = chomp_of(full, corner);
    lemma_chomp_of_decreases(full, corner);
    if !mover_wins(after) {
        assert(full.contains(corner) && corner != (1int, 1int) && !mover_wins(
            chomp_of(full, corner),
        ));
        assert(mover_wins(full));
    } else {
        let s = choose|s: (int, int)|
            after.contains(s) && s != (1int, 1int) && !mover_wins(chomp_of(after, s));
        assert(full.contains(s));
        assert(in_cone(corner, s));
        assert(chomp_of(full, s) =~= chomp_of(after, s)) by {
            assert forall|q: (int, int)|
                chomp_of(full, s).contains(q) implies chomp_of(after, s).contains(q) by {
                if in_cone(q, corner) {
                    assert(q == corner);
                    assert(in_cone(q, s));
                }
            }
        }
        assert(full.contains(s) && s != (1int, 1int) && !mover_wins(chomp_of(full, s)));
        assert(mover_wins(full));
    }
}

/// The solver's contract pins its answer down completely: any two results
/// that satisfy it for the same position are equal.  Together with the
/// absence of side effects this makes `winning_move` deterministic.
pub proof fn lemma_winning_move_deterministic(
    rem: Set<(int, int)>,
    r1: Option<(usize, usize)>,
    r2: Option<(usize, usize)>,
)
    requires
        winning_move_post(rem, r1),
        winning_move_post(rem, r2),
    ensures
        r1 == r2,
{
    match (r1, r2) {
        (Some(s1), Some(s2)) => {
            if earlier(sq_int(s1), sq_int(s2)) {
                assert(mover_wins(chomp_of(rem, sq_int(s1))));
                assert(false);
            } else if earlier(sq_int(s2), sq_int(s1)) {
                assert(mover_wins(chomp_of(rem, sq_int(s2))));
                assert(false);
            } else {
                assert(sq_int(s1) == sq_int(s2));
                assert(s1 == s2);
            }
        },
        _ => {},
    }
}

/// The squares that come strictly before row-major position `(row, col)` in a
/// grid `cols` columns wide (all rows above `row`, plus the first `col - 1`
/// squares of row `row`).
pub open spec fn rect_prefix(cols: int, row: int, col: int) -> Set<(int, int)> {
    Set::new(
        |q: (int, int)| 1 <= q.1 <= cols && 1 <= q.0 && (q.0 < row || (q.0 == row && q.1 < col)),
    )
}

/// Pushing a fresh element keeps a sequence duplicate-free.
proof fn lemma_no_duplicates_push<A>(s: Seq<A>, x: A)
    requires
        s.no_duplicates(),
        !s.contains(x),
    ensures
        s.push(x).no_duplicates(),
{
    let t = s.push(x);
    assert forall|i: int, j: int| 0 <= i < t.len() && 0 <= j < t.len() && i != j implies t[i]
        != t[j] by {
        if i < s.len() && j < s.len() {
            assert(s[i] == t[i] && s[j] == t[j]);
        } else if i < s.len() {
            assert(t[j] == x && t[i] == s[i]);
        } else {
            assert(t[i] == x && t[j] == s[j]);
        }
    }
}

/// A board with zero or at least two stored squares cannot consist of exactly
/// the poison square.
proof fn lemma_nonsingleton_board(board: &Board)
    requires
        board.wf(),
        board.chocolate_bar@.len() != 1,
    ensures
        !(board.rem() =~= set![(1int, 1int)]),
{
    if board.chocolate_bar@.len() == 0 {
        assert(!board.rem().contains((1int, 1int)));
        assert(set![(1int, 1int)].contains((1int, 1int)));
    } else {
        let sq = board.squares();
        assert(sq.contains(sq[0]) && sq.contains(sq[1]));
        assert(sq[0] != sq[1]);
        if board.rem() =~= set![(1int, 1int)] {
            assert(board.rem().contains(sq[0]) && board.rem().contains(sq[1]));
            assert(sq[0] == (1int, 1int) && sq[1] == (1int, 1int));
            assert(false);
        }
    }
}

/// Extending the prefix by one element extends its filtering by that element
/// (when the element is kept) or leaves it unchanged (when it is dropped).
proof fn lemma_filter_take_step<A>(s: Seq<A>, pred: spec_fn(A) -> bool, i: int)
    requires
        0 <= i < s.len(),
    ensures
        pred(s[i]) ==> s.take(i + 1).filter(pred) == s.take(i).filter(pred).push(s[i]),
        !pred(s[i]) ==> s.take(i + 1).filter(pred) == s.take(i).filter(pred),
{
    reveal(Seq::filter);
    assert(s.take(i + 1).drop_last() =~= s.take(i));
    assert(s.take(i + 1).last() == s[i]);
    assert(s.take(i + 1).len() == i + 1);
}

/// Filtering never introduces duplicates.
proof fn lemma_filter_no_duplicates<A>(s: Seq<A>, pred: spec_fn(A) -> bool)
    requires
        s.no_duplicates(),
    ensures
        s.filter(pred).no_duplicates(),
    decreases s.len(),
{
    reveal(Seq::filter);
    if s.len() > 0 {
        let rest = s.drop_last();
        assert(rest.no_duplicates());
        lemma_filter_no_duplicates(rest, pred);
        if pred(s.last()) {
            assert(!rest.contains(s.last()));
            lemma_filter_contains_iff(rest, pred, s.last());
            lemma_no_duplicates_push(rest.filter(pred), s.last());
            assert(s.filter(pred) == rest.filter(pred).push(s.last()));
        }
    }
}

/// A filtered sequence contains exactly the original elements that satisfy
/// the predicate.
proof fn lemma_filter_contains_iff<A>(s: Seq<A>, pred: spec_fn(A) -> bool, x: A)
    ensures
        s.filter(pred).contains(x) <==> (s.contains(x) && pred(x)),
    decreases s.len(),
{
    reveal(Seq::filter);
    if s.len() > 0 {
        let rest = s.drop_last();
        lemma_filter_contains_iff(rest, pred, x);
        assert(s.contains(x) <==> (rest.contains(x) || s.last() == x)) by {
            if s.contains(x) {
                let i = choose|i: int| 0 <= i < s.len() && s[i] == x;
                if i < s.len() - 1 {
                    assert(rest[i] == x);
                    assert(rest.contains(x));
                }
            }
            if rest.contains(x) {
                let i = choose|i: int| 0 <= i < rest.len() && rest[i] == x;
                assert(s[i] == x);
            }
        }
    }
}

} // verus!
