use vstd::prelude::*;

use crate::board::{board_of, strip_label};
use crate::search::{
    best_position, candidates, candidates_upto, closer, enemy_cells, fits, is_candidate, nearest,
    overlap, pick, reply, row_candidates, width,
};

verus! {

proof fn lemma_row_candidates_legal(
    g: Seq<Seq<char>>,
    p: Seq<Seq<char>>,
    e1: char,
    e2: char,
    x: int,
    n: int,
)
    requires
        0 <= x <= usize::MAX,
        n <= usize::MAX + 1,
    ensures
        forall|k: int|
            0 <= k < row_candidates(g, p, e1, e2, x, n).len() ==> {
                let a = #[trigger] row_candidates(g, p, e1, e2, x, n)[k];
                is_candidate(g, p, e1, e2, a.0 as int, a.1 as int)
            },
    decreases n,
{
    if n > 0 {
        lemma_row_candidates_legal(g, p, e1, e2, x, n - 1);
        let prev = row_candidates(g, p, e1, e2, x, n - 1);
        let cur = row_candidates(g, p, e1, e2, x, n);
        assert forall|k: int| 0 <= k < cur.len() implies {
            let a = #[trigger] cur[k];
            is_candidate(g, p, e1, e2, a.0 as int, a.1 as int)
        } by {
            if k < prev.len() {
                assert(cur[k] == prev[k]);
            }
        }
    }
}

proof fn lemma_candidates_upto_legal(g: Seq<Seq<char>>, p: Seq<Seq<char>>, e1: char, e2: char, m: int)
    requires
        m <= usize::MAX + 1,
        width(g) <= usize::MAX + 1,
    ensures
        forall|k: int|
            0 <= k < candidates_upto(g, p, e1, e2, m).len() ==> {
                let a = #[trigger] candidates_upto(g, p, e1, e2, m)[k];
                is_candidate(g, p, e1, e2, a.0 as int, a.1 as int)
            },
    decreases m,
{
    if m > 0 {
        lemma_candidates_upto_legal(g, p, e1, e2, m - 1);
        lemma_row_candidates_legal(g, p, e1, e2, m - 1, width(g));
        let prev = candidates_upto(g, p, e1, e2, m - 1);
        let row = row_candidates(g, p, e1, e2, m - 1, width(g));
        assert forall|k: int| 0 <= k < (prev + row).len() implies {
            let a = #[trigger] (prev + row)[k];
            is_candidate(g, p, e1, e2, a.0 as int, a.1 as int)
        } by {
            if k >= prev.len() {
                assert((prev + row)[k] == row[k - prev.len()]);
            }
        }
    }
}

proof fn lemma_row_candidates_complete(
    g: Seq<Seq<char>>,
    p: Seq<Seq<char>>,
    e1: char,
    e2: char,
    x: int,
    n: int,
    y: int,
)
    requires
        0 <= y < n,
        is_candidate(g, p, e1, e2, x, y),
    ensures
        row_candidates(g, p, e1, e2, x, n).len() > 0,
    decreases n,
{
    if y < n - 1 {
        lemma_row_candidates_complete(g, p, e1, e2, x, n - 1, y);
    }
}

proof fn lemma_candidates_upto_complete(
    g: Seq<Seq<char>>,
    p: Seq<Seq<char>>,
    e1: char,
    e2: char,
    m: int,
    x: int,
    y: int,
)
    requires
        0 <= x < m,
        is_candidate(g, p, e1, e2, x, y),
    ensures
        candidates_upto(g, p, e1, e2, m).len() > 0,
    decreases m,
{
    if x < m - 1 {
        lemma_candidates_upto_complete(g, p, e1, e2, m - 1, x, y);
    } else {
        lemma_row_candidates_complete(g, p, e1, e2, x, width(g), y);
    }
}

proof fn lemma_pick_member(cs: Seq<(usize, usize)>, es: Seq<(usize, usize)>)
    ensures
        pick(cs, es) is None <==> cs.len() == 0,
        pick(cs, es) is Some ==> exists|k: int|
            0 <= k < cs.len() && cs[k] == pick(cs, es)->0 && (forall|j: int|
                0 <= j < cs.len() ==> !closer(
                    nearest(#[trigger] cs[j], es),
                    nearest(cs[k], es),
                )) && (forall|j: int|
                0 <= j < k ==> closer(nearest(cs[k], es), nearest(#[trigger] cs[j], es))),
    decreases cs.len(),
{
    if cs.len() > 0 {
        let rest = cs.drop_last();
        let c = cs.last();
        lemma_pick_member(rest, es);
        match pick(rest, es) {
            None => {
                assert(cs[0] == c);
            },
            Some(b) => {
                let kb = choose|k: int|
                    0 <= k < rest.len() && rest[k] == b && (forall|j: int|
                        0 <= j < rest.len() ==> !closer(
                            nearest(#[trigger] rest[j], es),
                            nearest(rest[k], es),
                        )) && (forall|j: int|
                        0 <= j < k ==> closer(nearest(rest[k], es), nearest(#[trigger] rest[j], es)));
                if closer(nearest(c, es), nearest(b, es)) {
                    let k = cs.len() - 1;
                    assert(cs[k] == c);
                    assert forall|j: int| 0 <= j < cs.len() implies !closer(
                        nearest(#[trigger] cs[j], es),
                        nearest(cs[k], es),
                    ) by {
                        if j < k {
                            assert(cs[j] == rest[j]);
                            assert(!closer(nearest(rest[j], es), nearest(b, es)));
                        }
                    }
                    assert forall|j: int| 0 <= j < k implies closer(
                        nearest(cs[k], es),
                        nearest(#[trigger] cs[j], es),
                    ) by {
                        assert(cs[j] == rest[j]);
                        assert(!closer(nearest(rest[j], es), nearest(b, es)));
                    }
                } else {
                    assert(cs[kb] == rest[kb]);
                    assert forall|j: int| 0 <= j < cs.len() implies !closer(
                        nearest(#[trigger] cs[j], es),
                        nearest(cs[kb], es),
                    ) by {
                        if j < cs.len() - 1 {
                            assert(cs[j] == rest[j]);
                        }
                    }
                    assert forall|j: int| 0 <= j < kb implies closer(
                        nearest(cs[kb], es),
                        nearest(#[trigger] cs[j], es),
                    ) by {
                        assert(cs[j] == rest[j]);
                    }
                }
            },
        }
    }
}

/// A legal anchor, if any, is always found: the best position is absent
/// exactly when no anchor on the board is legal.
proof fn lemma_absent_iff_no_candidate(g: Seq<Seq<char>>, p: Seq<Seq<char>>, e1: char, e2: char)
    requires
        g.len() <= usize::MAX,
        width(g) <= usize::MAX,
    ensures
        best_position(g, p, e1, e2) is None <==> forall|x: int, y: int|
            !#[trigger] is_candidate(g, p, e1, e2, x, y),
{
    let cs = candidates(g, p, e1, e2);
    lemma_pick_member(cs, enemy_cells(g, e1, e2));
    lemma_candidates_upto_legal(g, p, e1, e2, g.len() as int);
    if exists|x: int, y: int| #[trigger] is_candidate(g, p, e1, e2, x, y) {
        let (x, y) = choose|x: int, y: int| #[trigger] is_candidate(g, p, e1, e2, x, y);
        lemma_candidates_upto_complete(g, p, e1, e2, g.len() as int, x, y);
    }
    if cs.len() > 0 {
        let a = cs[0];
        assert(is_candidate(g, p, e1, e2, a.0 as int, a.1 as int));
    }
}

proof fn lemma_best_is_candidate(g: Seq<Seq<char>>, p: Seq<Seq<char>>, e1: char, e2: char)
    requires
        g.len() <= usize::MAX,
        width(g) <= usize::MAX,
    ensures
        best_position(g, p, e1, e2) is Some ==> {
            let a = best_position(g, p, e1, e2)->0;
            is_candidate(g, p, e1, e2, a.0 as int, a.1 as int)
        },
{
    let cs = candidates(g, p, e1, e2);
    lemma_pick_member(cs, enemy_cells(g, e1, e2));
    lemma_candidates_upto_legal(g, p, e1, e2, g.len() as int);
}

/// The chosen anchor lies on the board: its row is below the board's height
/// and its column below its width.
pub proof fn lemma_best_position_on_board(g: Seq<Seq<char>>, p: Seq<Seq<char>>, e1: char, e2: char)
    requires
        g.len() <= usize::MAX,
        width(g) <= usize::MAX,
    ensures
        best_position(g, p, e1, e2) is Some ==> {
            let a = best_position(g, p, e1, e2)->0;
            a.0 < g.len() && a.1 < width(g)
        },
{
    lemma_best_is_candidate(g, p, e1, e2);
}

/// Every filled piece cell over the chosen anchor lands on the board and on
/// no enemy cell.
pub proof fn lemma_best_position_fits(g: Seq<Seq<char>>, p: Seq<Seq<char>>, e1: char, e2: char)
    requires
        g.len() <= usize::MAX,
        width(g) <= usize::MAX,
    ensures
        best_position(g, p, e1, e2) is Some ==> {
            let a = best_position(g, p, e1, e2)->0;
            forall|i: int, j: int|
                0 <= i < p.len() && 0 <= j < p[i].len() && #[trigger] p[i][j] != '.' ==> a.0 + i
                    < g.len() && a.1 + j < width(g) && g[a.0 + i][a.1 + j] != e1 && g[a.0 + i][a.1
                    + j] != e2
        },
{
    lemma_best_is_candidate(g, p, e1, e2);
}

/// Over the chosen anchor exactly one filled piece cell lands on an occupied
/// board cell.
pub proof fn lemma_best_position_touches_once(g: Seq<Seq<char>>, p: Seq<Seq<char>>, e1: char, e2: char)
    requires
        g.len() <= usize::MAX,
        width(g) <= usize::MAX,
    ensures
        best_position(g, p, e1, e2) is Some ==> {
            let a = best_position(g, p, e1, e2)->0;
            overlap(g, p, a.0 as int, a.1 as int) == 1
        },
{
    lemma_best_is_candidate(g, p, e1, e2);
}

/// When no anchor is legal, the reply is `(0, 0)`; and a legal anchor, when
/// there is one, is always found.
pub proof fn lemma_no_candidate_replies_origin(g: Seq<Seq<char>>, p: Seq<Seq<char>>, e1: char, e2: char)
    requires
        g.len() <= usize::MAX,
        width(g) <= usize::MAX,
    ensures
        (forall|x: int, y: int| !#[trigger] is_candidate(g, p, e1, e2, x, y)) ==> reply(
            best_position(g, p, e1, e2),
        ) == (0usize, 0usize),
        (forall|x: int, y: int| !#[trigger] is_candidate(g, p, e1, e2, x, y)) <==> best_position(
            g,
            p,
            e1,
            e2,
        ) is None,
{
    lemma_absent_iff_no_candidate(g, p, e1, e2);
}

/// The chosen anchor is a legal one that no legal anchor is strictly nearer
/// to the enemy than, and every legal anchor before it in row-major order is
/// strictly farther.
pub proof fn lemma_best_position_nearest(g: Seq<Seq<char>>, p: Seq<Seq<char>>, e1: char, e2: char)
    ensures
        best_position(g, p, e1, e2) is Some ==> {
            let cs = candidates(g, p, e1, e2);
            let es = enemy_cells(g, e1, e2);
            exists|k: int|
                0 <= k < cs.len() && cs[k] == best_position(g, p, e1, e2)->0 && (forall|j: int|
                    0 <= j < cs.len() ==> !closer(nearest(#[trigger] cs[j], es), nearest(cs[k], es)))
                    && (forall|j: int|
                    0 <= j < k ==> closer(nearest(cs[k], es), nearest(#[trigger] cs[j], es)))
        },
{
    lemma_pick_member(candidates(g, p, e1, e2), enemy_cells(g, e1, e2));
}

/// The same board, piece and enemy markers always give the same reply.
pub proof fn lemma_reply_deterministic(
    g1: Seq<Seq<char>>,
    p1: Seq<Seq<char>>,
    g2: Seq<Seq<char>>,
    p2: Seq<Seq<char>>,
    e1: char,
    e2: char,
)
    requires
        g1 == g2,
        p1 == p2,
    ensures
        reply(best_position(g1, p1, e1, e2)) == reply(best_position(g2, p2, e1, e2)),
{
}

/// Putting each row's four-character label back in front of the stored board
/// row gives the block's line again; there is one stored row per line.
pub proof fn lemma_board_round_trip(lines: Seq<Seq<char>>)
    ensures
        board_of(lines).len() == lines.len(),
        forall|i: int|
            0 <= i < lines.len() && lines[i].len() >= 4 ==> lines[i].take(4) + #[trigger] board_of(
                lines,
            )[i] == lines[i],
{
    assert forall|i: int| 0 <= i < lines.len() && lines[i].len() >= 4 implies lines[i].take(4)
        + #[trigger] board_of(lines)[i] == lines[i] by {
        assert(board_of(lines)[i] == strip_label(lines[i]));
        assert(lines[i].take(4) + lines[i].skip(4) =~= lines[i]);
    }
}

} // verus!
