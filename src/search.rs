//! Depth-first search for every way to complete the board.
use vstd::prelude::*;
use vstd::multiset::Multiset;
use arrayvec::ArrayVec;
use crate::part::labels_match;
use crate::rule::{Constraint, Rule, step_rule, refers_back, rule_for, BOARD_SIZE};
use crate::stack::{
    tiles_of, stack_new, stack_from, stack_len, stack_get, stack_push, stack_pop,
    stack_swap_remove, stack_clone,
};
use crate::tile::{
    Side, Tile, label_at, rotated, is_orientation_of, lemma_rotation_closure, lemma_rotated_keeps_id,
};

verus! {

broadcast use vstd::seq_lib::group_to_multiset_ensures;

/// The side `c.0` of `t` matches the side `c.2` of the placed tile at index `c.1`.
pub open spec fn constraint_holds(c: Constraint, t: Tile, placed: Seq<Tile>) -> bool {
    &&& (c.1 as int) < placed.len()
    &&& labels_match(label_at(t, c.0), label_at(placed[c.1 as int], c.2))
}

/// The tile `t` may follow the tiles `placed` under the rule `r`.
pub open spec fn rule_holds(r: Rule, t: Tile, placed: Seq<Tile>) -> bool {
    &&& constraint_holds(r.first, t, placed)
    &&& match r.second {
        Some(c) => constraint_holds(c, t, placed),
        None => true,
    }
}

/// Every tile from index `from` on (and after the anchor) obeys the rule of
/// the step at which it stands.
pub open spec fn consistent_from(placed: Seq<Tile>, from: int) -> bool {
    forall|j: int|
        1 <= j < placed.len() && from <= j ==> rule_holds(
            step_rule(j),
            #[trigger] placed[j],
            placed.subrange(0, j),
        )
}

/// Every tile after the anchor obeys the rule of the step at which it stands.
pub open spec fn consistent(placed: Seq<Tile>) -> bool {
    consistent_from(placed, 1)
}

/// The tiles `xs` are the tiles of `pool`, each once and in any order, each
/// in one of its orientations.
pub open spec fn arranged(xs: Seq<Tile>, pool: Multiset<Tile>) -> bool
    decreases xs.len(),
{
    if xs.len() == 0 {
        pool.len() == 0
    } else {
        exists|t: Tile|
            #![trigger pool.count(t)]
            pool.count(t) > 0 && is_orientation_of(xs[0], t) && arranged(
                xs.drop_first(),
                pool.remove(t),
            )
    }
}

/// `sol` is a full board that starts with `placed` and goes on with the
/// tiles of `remaining`, each turned as it needs, every tile after `placed`
/// obeying the rule of its step.
pub open spec fn completes(placed: Seq<Tile>, remaining: Seq<Tile>, sol: Seq<Tile>) -> bool {
    &&& sol.len() == placed.len() + remaining.len()
    &&& sol.subrange(0, placed.len() as int) == placed
    &&& consistent_from(sol, placed.len() as int)
    &&& arranged(sol.subrange(placed.len() as int, sol.len() as int), remaining.to_multiset())
}

/// `sol` solves the puzzle for `deck`: nine tiles obeying every rule, the
/// anchor a tile of the deck as it was given, the others the rest of the
/// deck, each turned as it needs.
pub open spec fn is_board_solution(deck: Seq<Tile>, sol: Seq<Tile>) -> bool {
    &&& sol.len() == BOARD_SIZE
    &&& consistent(sol)
    &&& deck.to_multiset().count(sol[0]) > 0
    &&& arranged(sol.drop_first(), deck.to_multiset().remove(sol[0]))
}

/// `sol` stands in `sols` at some index from `from` on.
pub open spec fn listed(sols: Seq<Vec<Tile>>, from: int, sol: Seq<Tile>) -> bool {
    exists|k: int| from <= k < sols.len() && #[trigger] sols[k]@ == sol
}

/// `s` without its item at `i`, the last item moved into its place.
pub open spec fn swap_removed(s: Seq<Tile>, i: int) -> Seq<Tile> {
    s.update(i, s.last()).drop_last()
}

/// The boards that the search lists, in the order it lists them, when
/// `placed` stands on the board and `remaining` is left: `placed` itself when
/// nothing is left; else, for each index of `remaining` in turn, and for
/// each of one to four quarter turns of that tile, the boards listed after
/// placing it, where the rule of the step allows it.
pub open spec fn listing(placed: Seq<Tile>, remaining: Seq<Tile>) -> Seq<Seq<Tile>>
    decreases remaining.len(), 3nat, 0nat, 0nat,
{
    if remaining.len() == 0 {
        seq![placed]
    } else {
        listing_upto(placed, remaining, remaining.len())
    }
}

/// What the search lists for the candidates `remaining[0]` to `remaining[i - 1]`.
pub open spec fn listing_upto(placed: Seq<Tile>, remaining: Seq<Tile>, i: nat) -> Seq<Seq<Tile>>
    decreases remaining.len(), 2nat, i, 0nat,
{
    if i == 0 {
        Seq::empty()
    } else {
        listing_upto(placed, remaining, (i - 1) as nat) + listing_turns(
            placed,
            remaining,
            (i - 1) as nat,
            4,
        )
    }
}

/// What the search lists for the candidate `remaining[i]` turned one to `m` times.
pub open spec fn listing_turns(placed: Seq<Tile>, remaining: Seq<Tile>, i: nat, m: nat) -> Seq<
    Seq<Tile>,
>
    decreases remaining.len(), 1nat, i, m,
{
    if m == 0 {
        Seq::empty()
    } else {
        listing_turns(placed, remaining, i, (m - 1) as nat) + listing_branch(
            placed,
            remaining,
            i,
            m,
        )
    }
}

/// What the search lists after placing `remaining[i]` turned `m` times, if
/// the rule of the step allows it.
pub open spec fn listing_branch(placed: Seq<Tile>, remaining: Seq<Tile>, i: nat, m: nat) -> Seq<
    Seq<Tile>,
>
    decreases remaining.len(), 0nat, 0nat, 0nat,
{
    if i < remaining.len() && rule_holds(
        step_rule(placed.len() as int),
        rotated(remaining[i as int], m),
        placed,
    ) {
        listing(placed.push(rotated(remaining[i as int], m)), swap_removed(remaining, i as int))
    } else {
        Seq::empty()
    }
}

/// What the search lists for a whole deck: the boards of each anchor in
/// turn, from `deck[0]` to `deck[a - 1]`, the anchor as given and the rest of
/// the deck with the last tile moved into the anchor's place.
pub open spec fn listing_anchors(deck: Seq<Tile>, a: nat) -> Seq<Seq<Tile>>
    decreases a,
{
    if a == 0 || a > deck.len() {
        Seq::empty()
    } else {
        listing_anchors(deck, (a - 1) as nat) + listing(
            seq![deck[a - 1]],
            swap_removed(deck, a - 1),
        )
    }
}

/// The boards held by a list of vectors.
pub open spec fn boards(sols: Seq<Vec<Tile>>) -> Seq<Seq<Tile>> {
    sols.map_values(|v: Vec<Tile>| v@)
}

/// `sol` completes `placed` with the tile `remaining[i]` turned `m` times next.
pub open spec fn completes_via(
    placed: Seq<Tile>,
    remaining: Seq<Tile>,
    i: int,
    m: nat,
    sol: Seq<Tile>,
) -> bool {
    &&& 0 <= i < remaining.len()
    &&& sol.len() == placed.len() + remaining.len()
    &&& sol.subrange(0, placed.len() as int) == placed
    &&& consistent_from(sol, placed.len() as int)
    &&& sol[placed.len() as int] == rotated(remaining[i], m)
    &&& arranged(
        sol.subrange(placed.len() as int + 1, sol.len() as int),
        remaining.to_multiset().remove(remaining[i]),
    )
}

proof fn lemma_swap_removed_multiset(s: Seq<Tile>, i: int)
    requires
        0 <= i < s.len(),
    ensures
        swap_removed(s, i).to_multiset() =~= s.to_multiset().remove(s[i]),
{
    let last = s.last();
    let t = s.drop_last();
    assert(s =~= t.push(last));
    if i == s.len() - 1 {
        assert(swap_removed(s, i) =~= s.remove(i));
    } else {
        let u = t.update(i, last);
        assert(swap_removed(s, i) =~= u);
        assert(u.remove(i) =~= t.remove(i));
        assert(u[i] == last);
        assert(u.to_multiset().remove(last) =~= t.to_multiset().remove(t[i]));
        assert(u.to_multiset().count(last) > 0) by {
            assert(u.contains(last));
        }
        assert(u.to_multiset() =~= u.to_multiset().remove(last).insert(last));
    }
}

proof fn lemma_listed_grow(sols: Seq<Vec<Tile>>, more: Seq<Vec<Tile>>, from: int, sol: Seq<Tile>)
    requires
        0 <= from,
        sols.len() <= more.len(),
        more.subrange(0, sols.len() as int) == sols,
        listed(sols, from, sol),
    ensures
        listed(more, from, sol),
{
    let k = choose|k: int| from <= k < sols.len() && #[trigger] sols[k]@ == sol;
    assert(more[k] == more.subrange(0, sols.len() as int)[k]);
}

/// A full board that completes `placed` has some tile of `remaining` next,
/// turned one to four times.
proof fn lemma_completes_has_next(placed: Seq<Tile>, remaining: Seq<Tile>, sol: Seq<Tile>)
    requires
        completes(placed, remaining, sol),
        remaining.len() > 0,
    ensures
        exists|i: int, m: nat| 1 <= m <= 4 && #[trigger] completes_via(placed, remaining, i, m, sol),
{
    let k = placed.len() as int;
    let rest = sol.subrange(k, sol.len() as int);
    let ms = remaining.to_multiset();
    assert(rest.len() > 0);
    let t = choose|t: Tile|
        #![trigger ms.count(t)]
        ms.count(t) > 0 && is_orientation_of(rest[0], t) && arranged(rest.drop_first(), ms.remove(t));
    assert(remaining.contains(t));
    let i = choose|i: int| 0 <= i < remaining.len() && remaining[i] == t;
    assert(rest.drop_first() =~= sol.subrange(k + 1, sol.len() as int));
    lemma_rotation_closure(t);
    reveal_with_fuel(rotated, 4);
    if rest[0] == rotated(t, 0) {
        assert(completes_via(placed, remaining, i, 4, sol));
    } else if rest[0] == rotated(t, 1) {
        assert(completes_via(placed, remaining, i, 1, sol));
    } else if rest[0] == rotated(t, 2) {
        assert(completes_via(placed, remaining, i, 2, sol));
    } else {
        assert(completes_via(placed, remaining, i, 3, sol));
    }
}

/// A board reached through `remaining[i]` obeys the rule at the next step.
proof fn lemma_via_rule(placed: Seq<Tile>, remaining: Seq<Tile>, i: int, m: nat, sol: Seq<Tile>)
    requires
        completes_via(placed, remaining, i, m, sol),
        placed.len() >= 1,
    ensures
        rule_holds(step_rule(placed.len() as int), rotated(remaining[i], m), placed),
{
    let k = placed.len() as int;
    assert(rule_holds(step_rule(k), sol[k], sol.subrange(0, k)));
}

/// A board reached through `remaining[i]` completes the longer prefix.
proof fn lemma_via_step_down(placed: Seq<Tile>, remaining: Seq<Tile>, i: int, m: nat, sol: Seq<Tile>)
    requires
        completes_via(placed, remaining, i, m, sol),
    ensures
        completes(placed.push(rotated(remaining[i], m)), swap_removed(remaining, i), sol),
{
    let k = placed.len() as int;
    lemma_swap_removed_multiset(remaining, i);
    assert(sol.subrange(0, k + 1) =~= placed.push(rotated(remaining[i], m)));
}

/// A board that completes the longer prefix completes the shorter one.
proof fn lemma_step_up(placed: Seq<Tile>, remaining: Seq<Tile>, i: int, m: nat, sol: Seq<Tile>)
    requires
        0 <= i < remaining.len(),
        1 <= m <= 4,
        rule_holds(step_rule(placed.len() as int), rotated(remaining[i], m), placed),
        completes(placed.push(rotated(remaining[i], m)), swap_removed(remaining, i), sol),
    ensures
        completes(placed, remaining, sol),
{
    let k = placed.len() as int;
    let t = remaining[i];
    let x = rotated(t, m);
    let ms = remaining.to_multiset();
    let rest = sol.subrange(k, sol.len() as int);
    lemma_swap_removed_multiset(remaining, i);
    assert(sol.subrange(0, k) =~= sol.subrange(0, k + 1).subrange(0, k));
    assert(sol.subrange(0, k + 1)[k] == x);
    assert(rest[0] == x);
    assert(rest.drop_first() =~= sol.subrange(k + 1, sol.len() as int));
    lemma_rotation_closure(t);
    reveal_with_fuel(rotated, 4);
    assert(is_orientation_of(x, t));
    assert(ms.count(t) > 0) by {
        assert(remaining.contains(t));
    }
    assert(arranged(sol.subrange(k + 1, sol.len() as int), ms.remove(t)));
    assert(arranged(rest, ms));
    assert(sol.len() == placed.len() + remaining.len());
    assert(sol.subrange(0, placed.len() as int) == placed);
    assert(consistent_from(sol, k));
}

/// The tiles of `v`, bottom first, in a vector of their own.
fn stack_to_vec(v: &ArrayVec<Tile, 9>) -> (r: Vec<Tile>)
    ensures
        r@ == tiles_of(*v),
{
    let n = stack_len(v);
    let mut r: Vec<Tile> = Vec::new();
    let mut i: usize = 0;
    while i < n
        invariant
            n == tiles_of(*v).len(),
            i <= n,
            r@ == tiles_of(*v).subrange(0, i as int),
        decreases n - i,
    {
        r.push(stack_get(v, i));
        i += 1;
        assert(r@ =~= tiles_of(*v).subrange(0, i as int));
    }
    assert(r@ =~= tiles_of(*v));
    r
}

/// Whether `tile` meets the constraint `c` against the placed tiles.
pub fn check_rule(c: Constraint, tile: Tile, tiles: &ArrayVec<Tile, 9>) -> (r: bool)
    requires
        (c.1 as int) < tiles_of(*tiles).len(),
    ensures
        r == constraint_holds(c, tile, tiles_of(*tiles)),
{
    let (own_side, other_idx, other_side) = c;
    let own_part = tile.get(own_side);
    let other_part = stack_get(tiles, other_idx).get(other_side);
    own_part.matches(other_part)
}

/// Extends the placed tiles `prev_tiles` in every way that obeys the rules
/// with the tiles of `remaining_tiles`, each tried in its four orientations,
/// and appends each full board found to `solutions`, in the order that
/// `listing` gives: one entry per branch of the search, nothing merged. The
/// placed tiles are as they were when it returns; they need not obey the
/// rules themselves.
pub fn solve(
    prev_tiles: &mut ArrayVec<Tile, 9>,
    remaining_tiles: ArrayVec<Tile, 9>,
    solutions: &mut Vec<Vec<Tile>>,
)
    requires
        1 <= tiles_of(*old(prev_tiles)).len(),
        tiles_of(*old(prev_tiles)).len() + tiles_of(remaining_tiles).len() == BOARD_SIZE,
    ensures
        tiles_of(*final(prev_tiles)) == tiles_of(*old(prev_tiles)),
        boards(final(solutions)@) == boards(old(solutions)@) + listing(
            tiles_of(*old(prev_tiles)),
            tiles_of(remaining_tiles),
        ),
        old(solutions)@.len() <= final(solutions)@.len(),
        final(solutions)@.subrange(0, old(solutions)@.len() as int) == old(solutions)@,
        forall|k: int|
            old(solutions)@.len() <= k < final(solutions)@.len() ==> completes(
                tiles_of(*old(prev_tiles)),
                tiles_of(remaining_tiles),
                #[trigger] final(solutions)@[k]@,
            ),
        forall|sol: Seq<Tile>|
            completes(tiles_of(*old(prev_tiles)), tiles_of(remaining_tiles), sol) ==> listed(
                final(solutions)@,
                old(solutions)@.len() as int,
                sol,
            ),
    decreases tiles_of(remaining_tiles).len(),
{
    let ghost p = tiles_of(*prev_tiles);
    let ghost rem = tiles_of(remaining_tiles);
    let ghost sols0 = solutions@;
    let ghost n0 = solutions@.len() as int;
    let n = stack_len(&remaining_tiles);
    if n == 0 {
        let placed = stack_to_vec(prev_tiles);
        solutions.push(placed);
        proof {
            assert(boards(solutions@) =~= boards(sols0) + listing(p, rem));
            assert(p.subrange(0, p.len() as int) =~= p);
            assert(p.subrange(p.len() as int, p.len() as int) =~= Seq::<Tile>::empty());
            assert(rem.to_multiset().len() == 0);
            assert(solutions@.subrange(0, n0) =~= sols0);
            assert(completes(p, rem, solutions@[n0]@));
            assert forall|sol: Seq<Tile>| completes(p, rem, sol) implies listed(
                solutions@,
                n0,
                sol,
            ) by {
                assert(sol =~= sol.subrange(0, p.len() as int));
                assert(solutions@[n0]@ == sol);
            }
        }
        return;
    }
    let tile_no = stack_len(prev_tiles);
    let rule = rule_for(tile_no);
    let mut i: usize = 0;
    while i < n
        invariant
            tiles_of(*prev_tiles) == p,
            tiles_of(remaining_tiles) == rem,
            n == rem.len(),
            tile_no == p.len(),
            1 <= tile_no < BOARD_SIZE,
            p.len() + rem.len() == BOARD_SIZE,
            rule == step_rule(tile_no as int),
            refers_back(rule, tile_no as int),
            i <= n,
            n0 <= solutions@.len(),
            n0 == sols0.len(),
            solutions@.subrange(0, n0) == sols0,
            boards(solutions@) == boards(sols0) + listing_upto(p, rem, i as nat),
            forall|k: int|
                n0 <= k < solutions@.len() ==> completes(p, rem, #[trigger] solutions@[k]@),
            forall|sol: Seq<Tile>, i2: int, m: nat|
                0 <= i2 < i && 1 <= m <= 4 && #[trigger] completes_via(p, rem, i2, m, sol)
                    ==> listed(solutions@, n0, sol),
        decreases n - i,
    {
        let mut tile = stack_get(&remaining_tiles, i);
        let mut r: usize = 0;
        proof {
            reveal_with_fuel(rotated, 1);
        }
        while r < 4
            invariant
                tiles_of(*prev_tiles) == p,
                tiles_of(remaining_tiles) == rem,
                n == rem.len(),
                tile_no == p.len(),
                1 <= tile_no < BOARD_SIZE,
                p.len() + rem.len() == BOARD_SIZE,
                    rule == step_rule(tile_no as int),
                refers_back(rule, tile_no as int),
                i < n,
                r <= 4,
                tile == rotated(rem[i as int], r as nat),
                n0 <= solutions@.len(),
                n0 == sols0.len(),
                solutions@.subrange(0, n0) == sols0,
                boards(solutions@) == boards(sols0) + listing_upto(p, rem, i as nat)
                    + listing_turns(p, rem, i as nat, r as nat),
                forall|k: int|
                    n0 <= k < solutions@.len() ==> completes(p, rem, #[trigger] solutions@[k]@),
                forall|sol: Seq<Tile>, i2: int, m: nat|
                    ((0 <= i2 < i && 1 <= m <= 4) || (i2 == i && 1 <= m <= r))
                        && #[trigger] completes_via(p, rem, i2, m, sol) ==> listed(
                        solutions@,
                        n0,
                        sol,
                    ),
            decreases 4 - r,
        {
            tile.rotate();
            let ghost m = (r + 1) as nat;
            assert(tile == rotated(rem[i as int], m));
            let first_ok = check_rule(rule.first, tile, prev_tiles);
            let second_ok = match rule.second {
                Some(second) => check_rule(second, tile, prev_tiles),
                None => true,
            };
            if first_ok && second_ok {
                let ghost before = solutions@;
                let mut rest = stack_clone(&remaining_tiles);
                stack_swap_remove(&mut rest, i);
                stack_push(prev_tiles, tile);
                solve(prev_tiles, rest, solutions);
                stack_pop(prev_tiles);
                proof {
                    assert(tiles_of(*prev_tiles) =~= p);
                    assert(listing_branch(p, rem, i as nat, m) == listing(
                        p.push(tile),
                        swap_removed(rem, i as int),
                    ));
                    assert(boards(solutions@) =~= boards(sols0) + listing_upto(p, rem, i as nat)
                        + listing_turns(p, rem, i as nat, m));
                    assert(solutions@.subrange(0, n0) =~= before.subrange(0, n0)) by {
                        assert forall|k: int| 0 <= k < n0 implies solutions@[k] == before[k] by {
                            assert(solutions@[k] == solutions@.subrange(0, before.len() as int)[k]);
                        }
                    }
                    assert forall|k: int|
                        n0 <= k < solutions@.len() implies completes(
                        p,
                        rem,
                        #[trigger] solutions@[k]@,
                    ) by {
                        if k < before.len() {
                            assert(solutions@[k] == solutions@.subrange(0, before.len() as int)[k]);
                        } else {
                            lemma_step_up(p, rem, i as int, m, solutions@[k]@);
                        }
                    }
                    assert forall|sol: Seq<Tile>, i2: int, m2: nat|
                        ((0 <= i2 < i && 1 <= m2 <= 4) || (i2 == i && 1 <= m2 <= r + 1))
                            && #[trigger] completes_via(p, rem, i2, m2, sol) implies listed(
                        solutions@,
                        n0,
                        sol,
                    ) by {
                        if i2 == i && m2 == r + 1 {
                            lemma_via_step_down(p, rem, i2, m2, sol);
                            assert(listed(solutions@, before.len() as int, sol));
                            let k = choose|k: int|
                                before.len() <= k < solutions@.len() && #[trigger] solutions@[k]@
                                    == sol;
                            assert(n0 <= k);
                        } else {
                            lemma_listed_grow(before, solutions@, n0, sol);
                        }
                    }
                }
            } else {
                proof {
                    assert(listing_branch(p, rem, i as nat, m) =~= Seq::<Seq<Tile>>::empty());
                    assert(listing_turns(p, rem, i as nat, m) =~= listing_turns(
                        p,
                        rem,
                        i as nat,
                        r as nat,
                    ));
                    assert forall|sol: Seq<Tile>, i2: int, m2: nat|
                        ((0 <= i2 < i && 1 <= m2 <= 4) || (i2 == i && 1 <= m2 <= r + 1))
                            && #[trigger] completes_via(p, rem, i2, m2, sol) implies listed(
                        solutions@,
                        n0,
                        sol,
                    ) by {
                        if i2 == i && m2 == r + 1 {
                            lemma_via_rule(p, rem, i2, m2, sol);
                        }
                    }
                }
            }
            r += 1;
        }
        proof {
            assert(listing_upto(p, rem, (i + 1) as nat) == listing_upto(p, rem, i as nat)
                + listing_turns(p, rem, i as nat, 4));
            assert(boards(solutions@) =~= boards(sols0) + listing_upto(p, rem, (i + 1) as nat));
        }
        i += 1;
    }
    proof {
        assert(listing(p, rem) == listing_upto(p, rem, n as nat));
        assert forall|sol: Seq<Tile>| completes(p, rem, sol) implies listed(solutions@, n0, sol) by {
            lemma_completes_has_next(p, rem, sol);
        }
    }
}

/// The boards that start with `deck[i]` as the anchor, as it was given, are
/// those that complete it with the rest of the deck.
proof fn lemma_anchor(deck: Seq<Tile>, i: int, sol: Seq<Tile>)
    requires
        deck.len() == BOARD_SIZE,
        0 <= i < deck.len(),
    ensures
        (is_board_solution(deck, sol) && sol[0] == deck[i]) <==> completes(
            seq![deck[i]],
            swap_removed(deck, i),
            sol,
        ),
{
    lemma_swap_removed_multiset(deck, i);
    assert(deck.contains(deck[i]));
    if sol.len() == BOARD_SIZE {
        assert(sol.drop_first() =~= sol.subrange(1, sol.len() as int));
        if sol[0] == deck[i] {
            assert(sol.subrange(0, 1) =~= seq![deck[i]]);
        }
        if sol.subrange(0, 1) == seq![deck[i]] {
            assert(sol[0] == sol.subrange(0, 1)[0]);
        }
    }
}

/// Every solution of the puzzle for `deck`, each anchor tried in turn in
/// the order of the deck and kept as it was given, listed in the order that
/// `listing_anchors` gives.
pub fn solve_deck(deck: [Tile; 9]) -> (r: Vec<Vec<Tile>>)
    ensures
        boards(r@) == listing_anchors(deck@, BOARD_SIZE as nat),
        forall|k: int| 0 <= k < r@.len() ==> is_board_solution(deck@, #[trigger] r@[k]@),
        forall|sol: Seq<Tile>| is_board_solution(deck@, sol) ==> listed(r@, 0, sol),
{
    let mut solutions: Vec<Vec<Tile>> = Vec::new();
    let mut prev_tiles = stack_new();
    let mut i: usize = 0;
    while i < BOARD_SIZE
        invariant
            tiles_of(prev_tiles) == Seq::<Tile>::empty(),
            i <= BOARD_SIZE,
            deck@.len() == BOARD_SIZE,
            boards(solutions@) == listing_anchors(deck@, i as nat),
            forall|k: int|
                0 <= k < solutions@.len() ==> is_board_solution(deck@, #[trigger] solutions@[k]@),
            forall|sol: Seq<Tile>, i2: int|
                0 <= i2 < i && #[trigger] is_board_solution(deck@, sol) && sol[0] == #[trigger] deck@[i2]
                    ==> listed(solutions@, 0, sol),
        decreases BOARD_SIZE - i,
    {
        let ghost before = solutions@;
        stack_push(&mut prev_tiles, deck[i]);
        let mut remaining_tiles = stack_from(deck);
        stack_swap_remove(&mut remaining_tiles, i);
        assert(tiles_of(prev_tiles) =~= seq![deck@[i as int]]);
        solve(&mut prev_tiles, remaining_tiles, &mut solutions);
        stack_pop(&mut prev_tiles);
        proof {
            assert(tiles_of(prev_tiles) =~= Seq::<Tile>::empty());
            assert(listing_anchors(deck@, (i + 1) as nat) == listing_anchors(deck@, i as nat)
                + listing(seq![deck@[i as int]], swap_removed(deck@, i as int)));
            assert forall|k: int|
                0 <= k < solutions@.len() implies is_board_solution(
                deck@,
                #[trigger] solutions@[k]@,
            ) by {
                if k < before.len() {
                    assert(solutions@[k] == solutions@.subrange(0, before.len() as int)[k]);
                } else {
                    lemma_anchor(deck@, i as int, solutions@[k]@);
                }
            }
            assert forall|sol: Seq<Tile>, i2: int|
                0 <= i2 < i + 1 && #[trigger] is_board_solution(deck@, sol) && sol[0]
                    == #[trigger] deck@[i2] implies listed(solutions@, 0, sol) by {
                if i2 == i {
                    lemma_anchor(deck@, i as int, sol);
                    let k = choose|k: int|
                        before.len() <= k < solutions@.len() && #[trigger] solutions@[k]@ == sol;
                } else {
                    lemma_listed_grow(before, solutions@, 0, sol);
                }
            }
        }
        i += 1;
    }
    proof {
        assert forall|sol: Seq<Tile>| is_board_solution(deck@, sol) implies listed(
            solutions@,
            0,
            sol,
        ) by {
            assert(deck@.contains(sol[0]));
            let i2 = choose|i2: int| 0 <= i2 < deck@.len() && deck@[i2] == sol[0];
            assert(sol[0] == deck@[i2]);
        }
    }
    solutions
}

/// The identities of the tiles of `s`, in order.
pub open spec fn ids(s: Seq<Tile>) -> Seq<u8> {
    s.map_values(|t: Tile| t.id)
}

/// No two tiles of `deck` share an identity.
pub open spec fn distinct_ids(deck: Seq<Tile>) -> bool {
    forall|i: int, j: int| 0 <= i < j < deck.len() ==> #[trigger] deck[i].id != #[trigger] deck[j].id
}

/// No side of the tile `deck[a]` matches any side of another tile of `deck`.
pub open spec fn isolated(deck: Seq<Tile>, a: int) -> bool {
    forall|j: int, s1: Side, s2: Side|
        0 <= j < deck.len() && j != a ==> !#[trigger] labels_match(
            label_at(deck[a], s1),
            label_at(deck[j], s2),
        )
}

proof fn lemma_ids_remove(s: Seq<Tile>, i: int)
    requires
        0 <= i < s.len(),
    ensures
        ids(s).to_multiset() =~= ids(s.remove(i)).to_multiset().insert(s[i].id),
{
    let v = ids(s);
    assert(v.remove(i) =~= ids(s.remove(i)));
    assert(v[i] == s[i].id);
    assert(v.to_multiset().count(s[i].id) > 0) by {
        assert(v.contains(s[i].id));
    }
    assert(v.to_multiset() =~= v.to_multiset().remove(s[i].id).insert(s[i].id));
}

proof fn lemma_orientation_keeps_id(x: Tile, t: Tile)
    requires
        is_orientation_of(x, t),
    ensures
        x.id == t.id,
{
    lemma_rotated_keeps_id(t, 0);
    lemma_rotated_keeps_id(t, 1);
    lemma_rotated_keeps_id(t, 2);
    lemma_rotated_keeps_id(t, 3);
}

proof fn lemma_arranged_ids(xs: Seq<Tile>, s: Seq<Tile>)
    requires
        arranged(xs, s.to_multiset()),
    ensures
        ids(xs).to_multiset() =~= ids(s).to_multiset(),
    decreases xs.len(),
{
    let ms = s.to_multiset();
    if xs.len() == 0 {
        assert(ids(xs) =~= Seq::<u8>::empty());
        assert(ids(s) =~= Seq::<u8>::empty());
    } else {
        let t = choose|t: Tile|
            #![trigger ms.count(t)]
            ms.count(t) > 0 && is_orientation_of(xs[0], t) && arranged(xs.drop_first(), ms.remove(t));
        assert(s.contains(t));
        let i = choose|i: int| 0 <= i < s.len() && s[i] == t;
        assert(s.remove(i).to_multiset() =~= ms.remove(t));
        lemma_arranged_ids(xs.drop_first(), s.remove(i));
        lemma_orientation_keeps_id(xs[0], t);
        lemma_ids_remove(xs, 0);
        assert(xs.remove(0) =~= xs.drop_first());
        lemma_ids_remove(s, i);
    }
}

/// A board that solves `deck` holds each identity of the deck as many times
/// as the deck does; when the deck's identities are all different, each of
/// them stands on the board exactly once.
pub proof fn lemma_solution_uses_each_tile_once(deck: Seq<Tile>, sol: Seq<Tile>)
    requires
        is_board_solution(deck, sol),
    ensures
        ids(sol).to_multiset() == ids(deck).to_multiset(),
        distinct_ids(deck) ==> forall|j: int|
            0 <= j < deck.len() ==> ids(sol).to_multiset().count(#[trigger] deck[j].id) == 1,
{
    assert(deck.contains(sol[0]));
    let i = choose|i: int| 0 <= i < deck.len() && deck[i] == sol[0];
    assert(deck.remove(i).to_multiset() =~= deck.to_multiset().remove(sol[0]));
    lemma_arranged_ids(sol.drop_first(), deck.remove(i));
    lemma_ids_remove(sol, 0);
    assert(sol.remove(0) =~= sol.drop_first());
    lemma_ids_remove(deck, i);
    assert(ids(sol).to_multiset() =~= ids(deck).to_multiset());
    if distinct_ids(deck) {
        let v = ids(deck);
        assert forall|a: int, b: int| 0 <= a < v.len() && 0 <= b < v.len() && a != b implies v[a]
            != v[b] by {
            if a < b {
                assert(deck[a].id != deck[b].id);
            } else {
                assert(deck[b].id != deck[a].id);
            }
        }
        v.lemma_multiset_has_no_duplicates();
        assert forall|j: int| 0 <= j < deck.len() implies ids(sol).to_multiset().count(
            #[trigger] deck[j].id,
        ) == 1 by {
            assert(v[j] == deck[j].id);
            assert(v.contains(deck[j].id));
        }
    }
}

/// When no side of the tile `deck[a]` matches a side of any other tile of a
/// deck whose identities are all different, no solution has `deck[a]` as
/// its anchor.
pub proof fn lemma_isolated_anchor(deck: Seq<Tile>, a: int, sol: Seq<Tile>)
    requires
        0 <= a < deck.len(),
        distinct_ids(deck),
        isolated(deck, a),
        is_board_solution(deck, sol),
    ensures
        sol[0] != deck[a],
{
    if sol[0] == deck[a] {
        let ms = deck.to_multiset().remove(deck[a]);
        let rest = sol.drop_first();
        let t = choose|t: Tile|
            #![trigger ms.count(t)]
            ms.count(t) > 0 && is_orientation_of(rest[0], t) && arranged(rest.drop_first(), ms.remove(t));
        assert(deck.remove(a).to_multiset() =~= ms);
        assert(deck.remove(a).contains(t));
        let k = choose|k: int| 0 <= k < deck.remove(a).len() && deck.remove(a)[k] == t;
        let j = if k < a { k } else { k + 1 };
        assert(deck[j] == t);
        assert(rule_holds(step_rule(1), sol[1], sol.subrange(0, 1)));
        let x = label_at(deck[a], Side::A);
        assert(labels_match(label_at(sol[1], Side::C), x));
        reveal_with_fuel(rotated, 4);
        assert(!labels_match(x, label_at(t, Side::A)));
        assert(!labels_match(x, label_at(t, Side::B)));
        assert(!labels_match(x, label_at(t, Side::C)));
        assert(!labels_match(x, label_at(t, Side::D)));
    }
}

/// `s1` and `s2` face each other when two tiles touch: top and bottom, or
/// right and left.
pub open spec fn facing(s1: Side, s2: Side) -> bool {
    (s1 == Side::A && s2 == Side::C) || (s1 == Side::C && s2 == Side::A) || (s1 == Side::B
        && s2 == Side::D) || (s1 == Side::D && s2 == Side::B)
}

/// In `deck` as given, any side of any tile matches the facing side of any
/// tile.
pub open spec fn always_fits(deck: Seq<Tile>) -> bool {
    forall|i: int, j: int, s1: Side, s2: Side|
        0 <= i < deck.len() && 0 <= j < deck.len() && facing(s1, s2) ==> #[trigger] labels_match(
            label_at(deck[i], s1),
            label_at(deck[j], s2),
        )
}

proof fn lemma_arranged_as_given(xs: Seq<Tile>)
    ensures
        arranged(xs, xs.to_multiset()),
    decreases xs.len(),
{
    if xs.len() > 0 {
        let ms = xs.to_multiset();
        let t = xs[0];
        assert(xs.remove(0) =~= xs.drop_first());
        assert(xs.contains(t));
        lemma_arranged_as_given(xs.drop_first());
        assert(ms.remove(t) =~= xs.drop_first().to_multiset());
        assert(is_orientation_of(xs[0], t));
        assert(ms.count(t) > 0 && is_orientation_of(xs[0], t) && arranged(xs.drop_first(), ms.remove(t)));
    }
}

/// When every tile of a nine-tile deck fits every other as given, each tile
/// of the deck anchors at least one solution.
pub proof fn lemma_every_anchor_solves(deck: Seq<Tile>, a: int)
    requires
        deck.len() == BOARD_SIZE,
        0 <= a < deck.len(),
        always_fits(deck),
    ensures
        exists|sol: Seq<Tile>| #[trigger] is_board_solution(deck, sol) && sol[0] == deck[a],
{
    let rest = swap_removed(deck, a);
    let sol = seq![deck[a]] + rest;
    lemma_swap_removed_multiset(deck, a);
    assert(sol.drop_first() =~= rest);
    lemma_arranged_as_given(rest);
    assert forall|k: int| 0 <= k < sol.len() implies deck.contains(#[trigger] sol[k]) by {
        if k == 0 {
            assert(deck[a] == sol[0]);
        } else if k - 1 == a && a < deck.len() - 1 {
            assert(sol[k] == deck[deck.len() - 1]);
        } else {
            assert(sol[k] == deck[k - 1]);
        }
    }
    assert forall|j: int| 1 <= j < sol.len() implies rule_holds(
        step_rule(j),
        #[trigger] sol[j],
        sol.subrange(0, j),
    ) by {
        let placed = sol.subrange(0, j);
        assert(deck.contains(sol[j]));
        let r = step_rule(j);
        assert(placed[r.first.1 as int] == sol[r.first.1 as int]);
        assert(deck.contains(sol[r.first.1 as int]));
        match r.second {
            Some(c) => {
                assert(placed[c.1 as int] == sol[c.1 as int]);
                assert(deck.contains(sol[c.1 as int]));
            },
            None => {},
        }
    }
    assert(is_board_solution(deck, sol));
}

/// A board that completes `placed` with `remaining` holds the identities of
/// `placed` and `remaining` together, each as many times as they do; when
/// those are all different, each of them stands on the board exactly once.
pub proof fn lemma_completion_uses_each_tile_once(
    placed: Seq<Tile>,
    remaining: Seq<Tile>,
    sol: Seq<Tile>,
)
    requires
        completes(placed, remaining, sol),
    ensures
        ids(sol).to_multiset() == ids(placed + remaining).to_multiset(),
        distinct_ids(placed + remaining) ==> forall|j: int|
            0 <= j < placed.len() + remaining.len() ==> ids(sol).to_multiset().count(
                #[trigger] (placed + remaining)[j].id,
            ) == 1,
{
    let k = placed.len() as int;
    let rest = sol.subrange(k, sol.len() as int);
    let all = placed + remaining;
    lemma_arranged_ids(rest, remaining);
    assert(sol =~= placed + rest);
    assert(ids(sol) =~= ids(placed) + ids(rest));
    assert(ids(all) =~= ids(placed) + ids(remaining));
    vstd::seq_lib::lemma_multiset_commutative(ids(placed), ids(rest));
    vstd::seq_lib::lemma_multiset_commutative(ids(placed), ids(remaining));
    assert(ids(sol).to_multiset() =~= ids(all).to_multiset());
    if distinct_ids(all) {
        let v = ids(all);
        assert forall|a: int, b: int| 0 <= a < v.len() && 0 <= b < v.len() && a != b implies v[a]
            != v[b] by {
            if a < b {
                assert(all[a].id != all[b].id);
            } else {
                assert(all[b].id != all[a].id);
            }
        }
        v.lemma_multiset_has_no_duplicates();
        assert forall|j: int| 0 <= j < all.len() implies ids(sol).to_multiset().count(
            #[trigger] all[j].id,
        ) == 1 by {
            assert(v[j] == all[j].id);
            assert(v.contains(all[j].id));
        }
    }
}

} // verus!
