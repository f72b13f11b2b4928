//! Optimal move-sequence generation for the Tower of Hanoi puzzle.
//!
//! A move is a `(source, destination)` pair of peg indices drawn from
//! `{0, 1, 2}`. The solver emits the unique optimal sequence produced by
//! the classic recursive decomposition: to move `n` disks from `from` to
//! `to`, move `n - 1` disks to the auxiliary peg, move the largest disk,
//! then move the `n - 1` disks on top of it.

use vstd::prelude::*;

verus! {

/// The canonical optimal move sequence for moving `n` disks from peg
/// `from` to peg `to` via peg `aux`. Empty for `n <= 0`.
pub open spec fn hanoi_seq(n: int, from: i32, to: i32, aux: i32) -> Seq<(i32, i32)>
    decreases n,
{
    if n <= 0 {
        Seq::empty()
    } else if n == 1 {
        seq![(from, to)]
    } else {
        hanoi_seq(n - 1, from, aux, to) + seq![(from, to)] + hanoi_seq(n - 1, aux, to, from)
    }
}

/// 2 to the power of `n` (1 for `n <= 0`), the measure of the solution length.
pub open spec fn pow2(n: int) -> nat
    decreases n,
{
    if n <= 0 {
        1
    } else {
        2 * pow2(n - 1)
    }
}

/// The optimal solution for `n` disks takes exactly `pow2(n) - 1` moves.
pub proof fn lemma_hanoi_seq_len(n: int, from: i32, to: i32, aux: i32)
    ensures
        hanoi_seq(n, from, to, aux).len() == pow2(n) - 1,
    decreases n,
{
    if n <= 0 {
    } else if n == 1 {
        reveal_with_fuel(pow2, 2);
    } else {
        lemma_hanoi_seq_len(n - 1, from, aux, to);
        lemma_hanoi_seq_len(n - 1, aux, to, from);
    }
}

/// Appends the optimal sequence for moving `n` disks from `from` to `to`
/// (via `aux`) onto `moves`. Does nothing for `n <= 0`.
pub fn move_tower(n: i32, from: i32, to: i32, aux: i32, moves: &mut Vec<(i32, i32)>)
    ensures
        final(moves)@ == old(moves)@ + hanoi_seq(n as int, from, to, aux),
    decreases n,
{
    if n <= 0 {
        proof {
            assert(moves@ =~= moves@ + hanoi_seq(n as int, from, to, aux));
        }
    } else if n == 1 {
        moves.push((from, to));
        proof {
            assert(moves@ =~= old(moves)@ + hanoi_seq(n as int, from, to, aux));
        }
    } else {
        move_tower(n - 1, from, aux, to, moves);
        moves.push((from, to));
        move_tower(n - 1, aux, to, from, moves);
        proof {
            assert(moves@ =~= old(moves)@ + hanoi_seq(n as int, from, to, aux));
        }
    }
}

/// Solves the Tower of Hanoi for `n` disks on pegs `{0, 1, 2}`: returns
/// the optimal sequence of `(source, destination)` moves that carries all
/// `n` disks from peg 0 to peg 2. Empty for `n <= 0`.
pub fn hanoi(n: i32) -> (moves: Vec<(i32, i32)>)
    ensures
        moves@ == hanoi_seq(n as int, 0, 2, 1),
        moves@.len() == pow2(n as int) - 1,
{
    let mut moves: Vec<(i32, i32)> = Vec::new();
    move_tower(n, 0, 2, 1, &mut moves);
    proof {
        assert(moves@ =~= hanoi_seq(n as int, 0, 2, 1));
        lemma_hanoi_seq_len(n as int, 0, 2, 1);
    }
    moves
}

// ---------------------------------------------------------------------------
// Correctness of the solution: replaying the moves against three pegs never
// places a larger disk on a smaller one and carries the whole tower to `to`.
// ---------------------------------------------------------------------------

/// The stack `[n, n - 1, ..., 1]` (bottom to top): `n` disks in order,
/// largest at the bottom. Empty for `n <= 0`.
pub open spec fn desc_run(n: int) -> Seq<int> {
    Seq::new(if n <= 0 { 0 } else { n as nat }, |i: int| n - i)
}

/// A move is legal when its pegs are distinct indices in `{0, 1, 2}`, the
/// source peg is non-empty, and the disk on top of the source is smaller
/// than the disk on top of the destination (if any).
pub open spec fn legal_move(pegs: Seq<Seq<int>>, m: (i32, i32)) -> bool {
    &&& 0 <= m.0 < 3
    &&& 0 <= m.1 < 3
    &&& m.0 != m.1
    &&& pegs[m.0 as int].len() > 0
    &&& (pegs[m.1 as int].len() == 0 || pegs[m.1 as int].last() > pegs[m.0 as int].last())
}

/// Moves the top disk of peg `m.0` onto peg `m.1`.
pub open spec fn do_move(pegs: Seq<Seq<int>>, m: (i32, i32)) -> Seq<Seq<int>> {
    pegs.update(m.0 as int, pegs[m.0 as int].drop_last()).update(
        m.1 as int,
        pegs[m.1 as int].push(pegs[m.0 as int].last()),
    )
}

/// Every move of `moves`, replayed in order from `pegs`, is legal.
pub open spec fn replay_ok(pegs: Seq<Seq<int>>, moves: Seq<(i32, i32)>) -> bool
    decreases moves.len(),
{
    moves.len() == 0 || (legal_move(pegs, moves[0]) && replay_ok(
        do_move(pegs, moves[0]),
        moves.drop_first(),
    ))
}

/// The peg state after replaying `moves` in order from `pegs`.
pub open spec fn replay(pegs: Seq<Seq<int>>, moves: Seq<(i32, i32)>) -> Seq<Seq<int>>
    decreases moves.len(),
{
    if moves.len() == 0 {
        pegs
    } else {
        replay(do_move(pegs, moves[0]), moves.drop_first())
    }
}

proof fn lemma_replay_append(pegs: Seq<Seq<int>>, m1: Seq<(i32, i32)>, m2: Seq<(i32, i32)>)
    ensures
        replay(pegs, m1 + m2) == replay(replay(pegs, m1), m2),
        replay_ok(pegs, m1 + m2) <==> (replay_ok(pegs, m1) && replay_ok(replay(pegs, m1), m2)),
    decreases m1.len(),
{
    if m1.len() == 0 {
        assert(m1 + m2 =~= m2);
    } else {
        assert((m1 + m2)[0] == m1[0]);
        assert((m1 + m2).drop_first() =~= m1.drop_first() + m2);
        lemma_replay_append(do_move(pegs, m1[0]), m1.drop_first(), m2);
    }
}

proof fn lemma_replay_one(pegs: Seq<Seq<int>>, m: (i32, i32))
    ensures
        replay(pegs, seq![m]) == do_move(pegs, m),
        replay_ok(pegs, seq![m]) <==> legal_move(pegs, m),
{
    reveal_with_fuel(replay, 2);
    reveal_with_fuel(replay_ok, 2);
    assert(seq![m][0] == m);
    assert(seq![m].drop_first() =~= Seq::<(i32, i32)>::empty());
}

/// Replaying `hanoi_seq(n, from, to, aux)` from any state whose peg `from`
/// carries the disks `n..1` on top (over disks all larger than `n`), and
/// whose pegs `to` and `aux` hold only disks larger than `n`, is legal
/// throughout and moves exactly those `n` disks onto peg `to`.
pub proof fn lemma_hanoi_seq_replays(n: int, from: i32, to: i32, aux: i32, pegs: Seq<Seq<int>>)
    requires
        n >= 0,
        pegs.len() == 3,
        0 <= from < 3,
        0 <= to < 3,
        0 <= aux < 3,
        from != to,
        to != aux,
        from != aux,
        pegs[from as int].len() >= n,
        pegs[from as int].skip(pegs[from as int].len() - n) == desc_run(n),
        forall|i: int| 0 <= i < pegs[from as int].len() - n ==> pegs[from as int][i] > n,
        forall|i: int| 0 <= i < pegs[to as int].len() ==> pegs[to as int][i] > n,
        forall|i: int| 0 <= i < pegs[aux as int].len() ==> pegs[aux as int][i] > n,
    ensures
        replay_ok(pegs, hanoi_seq(n, from, to, aux)),
        replay(pegs, hanoi_seq(n, from, to, aux)) == pegs.update(
            from as int,
            pegs[from as int].take(pegs[from as int].len() - n),
        ).update(to as int, pegs[to as int] + desc_run(n)),
    decreases n,
{
    let fi = from as int;
    let ti = to as int;
    let ai = aux as int;
    let rest = pegs[fi].take(pegs[fi].len() - n);
    let goal = pegs.update(fi, rest).update(ti, pegs[ti] + desc_run(n));
    if n == 0 {
        assert(pegs[ti] + desc_run(0) =~= pegs[ti]);
        assert(rest =~= pegs[fi]);
        assert(goal =~~= pegs);
    } else if n == 1 {
        let m = (from, to);
        assert(pegs[fi].last() == desc_run(1)[0]) by {
            assert(pegs[fi].skip(pegs[fi].len() - 1)[0] == pegs[fi].last());
        }
        assert(pegs[fi].last() == 1);
        assert(legal_move(pegs, m));
        let s1 = do_move(pegs, m);
        assert(hanoi_seq(1, from, to, aux) =~= seq![m]);
        lemma_replay_one(pegs, m);
        assert(replay(pegs, hanoi_seq(1, from, to, aux)) == s1);
        assert(s1[fi] =~= rest);
        assert(s1[ti] =~= pegs[ti] + desc_run(1));
        assert(s1 =~~= goal);
    } else {
        let m1 = hanoi_seq(n - 1, from, aux, to);
        let mid = seq![(from, to)];
        let m3 = hanoi_seq(n - 1, aux, to, from);
        assert(hanoi_seq(n, from, to, aux) == m1 + mid + m3);

        // First half: the n - 1 smallest disks go from `from` to `aux`.
        assert(pegs[fi].skip(pegs[fi].len() - (n - 1)) =~= desc_run(n - 1)) by {
            assert forall|i: int| 0 <= i < n - 1 implies #[trigger] pegs[fi].skip(
                pegs[fi].len() - (n - 1),
            )[i] == n - 1 - i by {
                assert(pegs[fi].skip(pegs[fi].len() - n)[i + 1] == n - (i + 1));
            }
        }
        assert forall|i: int| 0 <= i < pegs[fi].len() - (n - 1) implies pegs[fi][i] > n - 1 by {
            if i >= pegs[fi].len() - n {
                assert(pegs[fi].skip(pegs[fi].len() - n)[i - (pegs[fi].len() - n)] == pegs[fi][i]);
            }
        }
        lemma_hanoi_seq_replays(n - 1, from, aux, to, pegs);
        let s1 = replay(pegs, m1);
        assert(s1 == pegs.update(fi, pegs[fi].take(pegs[fi].len() - (n - 1))).update(
            ai,
            pegs[ai] + desc_run(n - 1),
        ));

        // Middle move: the largest of the n disks goes from `from` to `to`.
        assert(s1[fi] == pegs[fi].take(pegs[fi].len() - (n - 1)));
        assert(s1[fi].len() == pegs[fi].len() - n + 1);
        assert(s1[fi].last() == pegs[fi][pegs[fi].len() - n]);
        assert(pegs[fi][pegs[fi].len() - n] == n) by {
            assert(pegs[fi].skip(pegs[fi].len() - n)[0] == n - 0);
        }
        assert(s1[ti] == pegs[ti]);
        assert(legal_move(s1, (from, to)));
        let s2 = do_move(s1, (from, to));
        lemma_replay_one(s1, (from, to));
        assert(replay(s1, mid) == s2);
        assert(replay_ok(s1, mid));
        assert(s2[fi] =~= rest);
        assert(s2[ti] == pegs[ti].push(n));
        assert(s2[ai] == pegs[ai] + desc_run(n - 1));

        // Second half: the n - 1 disks go from `aux` onto the largest on `to`.
        assert(s2[ai].skip(s2[ai].len() - (n - 1)) =~= desc_run(n - 1));
        assert(forall|i: int| 0 <= i < s2[ai].len() - (n - 1) ==> s2[ai][i] > n - 1);
        assert(forall|i: int| 0 <= i < s2[ti].len() ==> s2[ti][i] > n - 1);
        assert(forall|i: int| 0 <= i < s2[fi].len() ==> s2[fi][i] > n - 1);
        lemma_hanoi_seq_replays(n - 1, aux, to, from, s2);
        let s3 = replay(s2, m3);
        assert(s3 == s2.update(ai, s2[ai].take(s2[ai].len() - (n - 1))).update(
            ti,
            s2[ti] + desc_run(n - 1),
        ));

        // Stitch the three phases together.
        lemma_replay_append(pegs, m1 + mid, m3);
        lemma_replay_append(pegs, m1, mid);
        assert((m1 + mid) + m3 == hanoi_seq(n, from, to, aux));
        assert(replay(pegs, hanoi_seq(n, from, to, aux)) == s3);
        assert(replay_ok(pegs, hanoi_seq(n, from, to, aux)));
        assert(s3[ai] =~= pegs[ai]);
        assert(s3[ti] =~= pegs[ti] + desc_run(n)) by {
            assert forall|i: int| 0 <= i < pegs[ti].len() + n implies (s2[ti] + desc_run(n - 1))[i]
                == (pegs[ti] + desc_run(n))[i] by {}
        }
        assert(s3[fi] == rest);
        assert(s3 =~~= goal);
    }
}

/// Solving `n` disks is a legal play from the start state (all `n` disks
/// stacked on peg 0 in size order) and ends with the whole tower, in the
/// same order, on peg 2 — no move ever puts a larger disk on a smaller one.
pub proof fn lemma_hanoi_solves(n: int)
    requires
        n >= 0,
    ensures
        replay_ok(seq![desc_run(n), Seq::empty(), Seq::empty()], hanoi_seq(n, 0, 2, 1)),
        replay(seq![desc_run(n), Seq::empty(), Seq::empty()], hanoi_seq(n, 0, 2, 1)) == seq![
            Seq::<int>::empty(),
            Seq::<int>::empty(),
            desc_run(n),
        ],
{
    let pegs = seq![desc_run(n), Seq::<int>::empty(), Seq::<int>::empty()];
    assert(pegs[0].skip(pegs[0].len() - n) =~= desc_run(n));
    lemma_hanoi_seq_replays(n, 0, 2, 1, pegs);
    assert(pegs[0].take(0) =~= Seq::<int>::empty());
    assert(pegs[2] + desc_run(n) =~= desc_run(n));
    assert(pegs.update(0, pegs[0].take(pegs[0].len() - n)).update(2, pegs[2] + desc_run(n)) =~~=
        seq![Seq::<int>::empty(), Seq::<int>::empty(), desc_run(n)]);
}

} // verus!
