//! The round engine: consumes one action per side per round, applies the
//! capture rule, advances timers, and tracks history and the win
//! condition.

use vstd::prelude::*;
use vstd::seq_lib::*;
use crate::actors::{ResistanceAction, ResistanceActor, SuppressionAction, SuppressionActor};
use crate::tilemap::{interior, neighbors_spec, Coord, CoordinateSystem, Tile};

verus! {

/// One effect emitted by resolving a round.
#[derive(Clone, Copy, Debug, PartialEq, Eq)]
pub enum RoundResult {
    /// A temporary tile became fully enclosed and is promoted to a
    /// permanent one.
    ResistanceGainsPoint(Coord),
    /// A fresh claim succeeded and becomes a temporary tile.
    ResistanceGainsTemporary(Coord),
}

/// Why an intake was rejected.
#[derive(Clone, Copy, Debug, PartialEq, Eq)]
pub enum IntakeError {
    /// A terminal state was reached; the engine resolves no further
    /// rounds.
    GameAlreadyOver,
}

/// The coordinates of a sequence of timed temporary tiles, in order.
pub open spec fn temp_coords(temps: Seq<(Coord, u32)>) -> Seq<Coord> {
    temps.map_values(|t: (Coord, u32)| t.0)
}

/// Whether `c` is resistance-controlled: permanent, or temporary for
/// any temp tile under consideration.
pub open spec fn controlled(c: Coord, temps: Seq<Coord>, perms: Seq<Coord>) -> bool {
    perms.contains(c) || temps.contains(c)
}

/// How many of the listed cells are not resistance-controlled.
pub open spec fn count_free(ns: Seq<Coord>, temps: Seq<Coord>, perms: Seq<Coord>) -> int
    decreases ns.len(),
{
    if ns.len() == 0 {
        0
    } else {
        count_free(ns.drop_last(), temps, perms) + if controlled(ns.last(), temps, perms) {
            0int
        } else {
            1int
        }
    }
}

/// Whether every one of the four neighbors of `c` is
/// resistance-controlled.
pub open spec fn enclosed(c: Coord, temps: Seq<Coord>, perms: Seq<Coord>) -> bool {
    forall|i: int| 0 <= i < 4 ==> controlled(#[trigger] neighbors_spec(c)[i], temps, perms)
}

/// A count of free cells is zero exactly when every listed cell is
/// controlled.
pub proof fn lemma_count_free_zero(ns: Seq<Coord>, temps: Seq<Coord>, perms: Seq<Coord>)
    ensures
        count_free(ns, temps, perms) >= 0,
        count_free(ns, temps, perms) == 0 <==> (forall|i: int|
            0 <= i < ns.len() ==> controlled(#[trigger] ns[i], temps, perms)),
    decreases ns.len(),
{
    if ns.len() > 0 {
        lemma_count_free_zero(ns.drop_last(), temps, perms);
        if count_free(ns, temps, perms) == 0 {
            assert forall|i: int| 0 <= i < ns.len() implies controlled(
                #[trigger] ns[i],
                temps,
                perms,
            ) by {
                if i < ns.len() - 1 {
                    assert(ns.drop_last()[i] == ns[i]);
                } else {
                    assert(ns[i] == ns.last());
                }
            }
        }
        if forall|i: int| 0 <= i < ns.len() ==> controlled(#[trigger] ns[i], temps, perms) {
            assert forall|i: int| 0 <= i < ns.drop_last().len() implies controlled(
                #[trigger] ns.drop_last()[i],
                temps,
                perms,
            ) by {
                assert(ns.drop_last()[i] == ns[i]);
            }
            assert(controlled(ns.last(), temps, perms)) by {
                assert(ns.last() == ns[ns.len() - 1]);
            }
        }
    }
}

/// The promotions emitted while scanning `scan` in order: one
/// `ResistanceGainsPoint` for each scanned cell that is fully enclosed
/// with respect to `temps` and `perms`.
pub open spec fn promotions(scan: Seq<Coord>, temps: Seq<Coord>, perms: Seq<Coord>) -> Seq<
    RoundResult,
>
    decreases scan.len(),
{
    if scan.len() == 0 {
        Seq::empty()
    } else {
        (if enclosed(scan[0], temps, perms) {
            seq![RoundResult::ResistanceGainsPoint(scan[0])]
        } else {
            Seq::empty()
        }) + promotions(scan.drop_first(), temps, perms)
    }
}

/// Whether a claim on `public_coord` succeeds this round: the cell is
/// not already temporary and lies outside the suppression zone.
pub open spec fn claim_succeeds(temps: Seq<Coord>, res: ResistanceAction, zone: Seq<
    Coord,
>) -> bool {
    !temps.contains(res.public_coord) && !zone.contains(res.public_coord)
}

/// The ordered results of resolving one round: the new-temporary
/// result, if the claim succeeds, followed by the enclosure promotions
/// in the scan order of the temporary tiles (the successful claim
/// included).
pub open spec fn round_results_spec(
    temps: Seq<(Coord, u32)>,
    perms: Seq<Coord>,
    res: ResistanceAction,
    zone: Seq<Coord>,
) -> Seq<RoundResult> {
    let t0 = temp_coords(temps);
    if claim_succeeds(t0, res, zone) {
        let t1 = t0.push(res.public_coord);
        seq![RoundResult::ResistanceGainsTemporary(res.public_coord)] + promotions(t1, t1, perms)
    } else {
        promotions(t0, t0, perms)
    }
}

/// The index of the first temporary entry for `c`, or -1 if there is
/// none.
pub open spec fn find_coord(temps: Seq<(Coord, u32)>, c: Coord) -> int
    decreases temps.len(),
{
    if temps.len() == 0 {
        -1
    } else if temps[0].0 == c {
        0
    } else {
        let rest = find_coord(temps.drop_first(), c);
        if rest < 0 {
            -1
        } else {
            rest + 1
        }
    }
}

/// `find_coord` answers membership, and when it finds an index it is
/// the first one holding `c`.
pub proof fn lemma_find_coord(temps: Seq<(Coord, u32)>, c: Coord)
    ensures
        find_coord(temps, c) >= 0 <==> temp_coords(temps).contains(c),
        find_coord(temps, c) >= 0 ==> {
            let i = find_coord(temps, c);
            &&& i < temps.len()
            &&& temps[i].0 == c
            &&& forall|j: int| 0 <= j < i ==> (#[trigger] temps[j]).0 != c
        },
    decreases temps.len(),
{
    if temps.len() == 0 {
        assert(!temp_coords(temps).contains(c));
    } else if temps[0].0 == c {
        assert(temp_coords(temps)[0] == c);
        assert(temp_coords(temps).contains(c));
    } else {
        let rest = temps.drop_first();
        lemma_find_coord(rest, c);
        assert(forall|j: int| 0 <= j < rest.len() ==> #[trigger] rest[j] == temps[j + 1]);
        if temp_coords(temps).contains(c) {
            let k = choose|k: int|
                0 <= k < temp_coords(temps).len() && temp_coords(temps)[k] == c;
            assert(temps[k].0 == c);
            assert(k != 0);
            assert(temp_coords(rest)[k - 1] == c);
            assert(temp_coords(rest).contains(c));
        }
        if find_coord(rest, c) >= 0 {
            let fr = find_coord(rest, c);
            assert(temp_coords(rest)[fr] == c);
            assert(temp_coords(temps)[fr + 1] == c);
            assert(temp_coords(temps).contains(c));
            assert(rest[fr] == temps[fr + 1]);
            assert forall|j: int| 0 <= j < fr + 1 implies (#[trigger] temps[j]).0 != c by {
                if j > 0 {
                    assert(rest[j - 1] == temps[j]);
                }
            }
        }
    }
}

/// The state of the territory after applying a sequence of round
/// results in order, or nothing if a promotion names a cell that is
/// not temporary at that point (a logic error the capture rule never
/// produces).
pub open spec fn apply_results(
    temps: Seq<(Coord, u32)>,
    perms: Seq<Coord>,
    results: Seq<RoundResult>,
    ttc: u32,
) -> Option<(Seq<(Coord, u32)>, Seq<Coord>)>
    decreases results.len(),
{
    if results.len() == 0 {
        Some((temps, perms))
    } else {
        match results[0] {
            RoundResult::ResistanceGainsPoint(c) => {
                if find_coord(temps, c) >= 0 {
                    apply_results(
                        temps.remove(find_coord(temps, c)),
                        perms.push(c),
                        results.drop_first(),
                        ttc,
                    )
                } else {
                    None
                }
            },
            RoundResult::ResistanceGainsTemporary(c) => {
                apply_results(temps.push((c, ttc)), perms, results.drop_first(), ttc)
            },
        }
    }
}

/// One timer step over the temporary tiles: every remaining-turn count
/// drops by one and the entries that reach zero are gone, in order.
pub open spec fn tick(temps: Seq<(Coord, u32)>) -> Seq<(Coord, u32)>
    decreases temps.len(),
{
    if temps.len() == 0 {
        Seq::empty()
    } else {
        tick(temps.drop_last()) + if temps.last().1 > 1 {
            seq![(temps.last().0, (temps.last().1 - 1) as u32)]
        } else {
            Seq::empty()
        }
    }
}

/// Whether the listed coordinates all have representable neighbors.
pub open spec fn all_interior(temps: Seq<(Coord, u32)>) -> bool {
    forall|i: int| 0 <= i < temps.len() ==> interior((#[trigger] temps[i]).0)
}

/// Membership scan over a plain coordinate list.
fn coords_contain(v: &Vec<Coord>, c: Coord) -> (r: bool)
    ensures
        r == v@.contains(c),
{
    let mut i: usize = 0;
    while i < v.len()
        invariant
            i <= v@.len(),
            forall|j: int| 0 <= j < i ==> v@[j] != c,
        decreases v@.len() - i,
    {
        if v[i].0 == c.0 && v[i].1 == c.1 {
            proof {
                assert(v@[i as int] == c);
            }
            return true;
        }
        i = i + 1;
    }
    false
}

/// First-index scan over the temporary tiles for a coordinate known to
/// be present.
fn temp_position(temps: &Vec<(Coord, u32)>, c: Coord) -> (r: usize)
    requires
        find_coord(temps@, c) >= 0,
    ensures
        r as int == find_coord(temps@, c),
{
    proof {
        lemma_find_coord(temps@, c);
    }
    let mut i: usize = 0;
    while i < temps.len()
        invariant
            i <= temps@.len(),
            find_coord(temps@, c) >= 0,
            forall|j: int| 0 <= j < i ==> (#[trigger] temps@[j]).0 != c,
        decreases temps@.len() - i,
    {
        let t = temps[i];
        if t.0.0 == c.0 && t.0.1 == c.1 {
            proof {
                lemma_find_coord(temps@, c);
                let i0 = find_coord(temps@, c);
                assert(temps@[i as int].0 == c);
                assert(i as int == i0);
            }
            return i;
        }
        i = i + 1;
    }
    proof {
        lemma_find_coord(temps@, c);
        let i0 = find_coord(temps@, c);
        assert(temps@[i0].0 != c);  // contradicts the characterization
        assert(false);
    }
    0
}

/// Removing an entry commutes with projecting the coordinates.
proof fn lemma_temp_coords_remove(temps: Seq<(Coord, u32)>, i: int)
    requires
        0 <= i < temps.len(),
    ensures
        temp_coords(temps.remove(i)) == temp_coords(temps).remove(i),
{
    temps.remove_ensures(i);
    temp_coords(temps).remove_ensures(i);
    assert(temp_coords(temps.remove(i)) =~= temp_coords(temps).remove(i));
}

/// Removing an index keeps a duplicate-free sequence duplicate-free.
proof fn lemma_seq_remove_no_dup(s: Seq<Coord>, i: int)
    requires
        0 <= i < s.len(),
        s.no_duplicates(),
    ensures
        s.remove(i).no_duplicates(),
{
    s.remove_ensures(i);
    assert forall|p: int, q: int|
        0 <= p < s.remove(i).len() && 0 <= q < s.remove(i).len() && p != q implies s.remove(i)[p]
        != s.remove(i)[q] by {
        let op = if p < i {
            p
        } else {
            p + 1
        };
        let oq = if q < i {
            q
        } else {
            q + 1
        };
        assert(s.remove(i)[p] == s[op]);
        assert(s.remove(i)[q] == s[oq]);
    }
}

/// Without duplicates, a removal takes away exactly the element at the
/// removed index.
proof fn lemma_seq_remove_contains(s: Seq<Coord>, i: int, x: Coord)
    requires
        0 <= i < s.len(),
        s.no_duplicates(),
    ensures
        s.remove(i).contains(x) <==> (s.contains(x) && x != s[i]),
{
    s.remove_ensures(i);
    if s.remove(i).contains(x) {
        let j = choose|j: int| 0 <= j < s.remove(i).len() && s.remove(i)[j] == x;
        if j < i {
            assert(s[j] == x);
            assert(s[j] != s[i]);
        } else {
            assert(s[j + 1] == x);
            assert(s[j + 1] != s[i]);
        }
        assert(s.contains(x));
    }
    if s.contains(x) && x != s[i] {
        let k = choose|k: int| 0 <= k < s.len() && s[k] == x;
        assert(k != i);
        if k < i {
            assert(s.remove(i)[k] == x);
        } else {
            assert(s.remove(i)[k - 1] == x);
        }
        assert(s.remove(i).contains(x));
    }
}

/// Pushing a fresh element keeps a sequence duplicate-free.
proof fn lemma_seq_push_no_dup(s: Seq<Coord>, c: Coord)
    requires
        s.no_duplicates(),
        !s.contains(c),
    ensures
        s.push(c).no_duplicates(),
{
    assert forall|p: int, q: int|
        0 <= p < s.push(c).len() && 0 <= q < s.push(c).len() && p != q implies s.push(c)[p]
        != s.push(c)[q] by {
        if p < s.len() && q < s.len() {
            assert(s.push(c)[p] == s[p]);
            assert(s.push(c)[q] == s[q]);
        } else if p < s.len() {
            assert(s.push(c)[p] == s[p]);
            assert(s.push(c)[q] == c);
        } else {
            assert(s.push(c)[p] == c);
            assert(s.push(c)[q] == s[q]);
        }
    }
}

/// What a pushed sequence holds: the old elements and the new one.
proof fn lemma_seq_push_contains(s: Seq<Coord>, c: Coord, x: Coord)
    ensures
        s.push(c).contains(x) <==> (s.contains(x) || x == c),
{
    assert(s.push(c)[s.len() as int] == c);
    if s.contains(x) {
        let k = choose|k: int| 0 <= k < s.len() && s[k] == x;
        assert(s.push(c)[k] == x);
        assert(s.push(c).contains(x));
    }
    if s.push(c).contains(x) {
        let k = choose|k: int| 0 <= k < s.push(c).len() && s.push(c)[k] == x;
        if k < s.len() {
            assert(s[k] == x);
            assert(s.contains(x));
        }
    }
}

/// One timer step keeps the temporary coordinates duplicate-free,
/// introduces no coordinate, and pairs every surviving entry with a
/// source entry whose count was one higher and at least two.
proof fn lemma_tick_wf(temps: Seq<(Coord, u32)>)
    requires
        temp_coords(temps).no_duplicates(),
    ensures
        temp_coords(tick(temps)).no_duplicates(),
        forall|i: int|
            0 <= i < tick(temps).len() ==> exists|j: int|
                0 <= j < temps.len() && (#[trigger] tick(temps)[i]).0 == temps[j].0 && temps[j].1
                    >= 2 && tick(temps)[i].1 == temps[j].1 - 1,
        forall|c: Coord| temp_coords(tick(temps)).contains(c) ==> temp_coords(temps).contains(c),
    decreases temps.len(),
{
    if temps.len() == 0 {
    } else {
        let d = temps.drop_last();
        assert forall|p: int, q: int|
            0 <= p < temp_coords(d).len() && 0 <= q < temp_coords(d).len() && p != q implies
            temp_coords(d)[p] != temp_coords(d)[q] by {
            assert(temp_coords(d)[p] == temp_coords(temps)[p]);
            assert(temp_coords(d)[q] == temp_coords(temps)[q]);
        }
        lemma_tick_wf(d);
        let tk = tick(temps);
        let tkd = tick(d);
        assert(forall|i: int| 0 <= i < tkd.len() ==> #[trigger] tk[i] == tkd[i]);
        assert(forall|j: int| 0 <= j < d.len() ==> #[trigger] d[j] == temps[j]);
        assert forall|i: int| 0 <= i < tk.len() implies exists|j: int|
            0 <= j < temps.len() && (#[trigger] tk[i]).0 == temps[j].0 && temps[j].1 >= 2 && tk[i].1
                == temps[j].1 - 1 by {
            if i < tkd.len() {
                let j = choose|j: int|
                    0 <= j < d.len() && (#[trigger] tkd[i]).0 == d[j].0 && d[j].1 >= 2 && tkd[i].1
                        == d[j].1 - 1;
                assert(0 <= j < temps.len() && tk[i].0 == temps[j].0 && temps[j].1 >= 2 && tk[i].1
                    == temps[j].1 - 1);
            } else {
                let j = temps.len() - 1;
                assert(tk[i] == (temps.last().0, (temps.last().1 - 1) as u32));
                assert(0 <= j < temps.len() && tk[i].0 == temps[j].0 && temps[j].1 >= 2 && tk[i].1
                    == temps[j].1 - 1);
            }
        }
        assert forall|c: Coord| temp_coords(tk).contains(c) implies temp_coords(
            temps,
        ).contains(c) by {
            let i = choose|i: int| 0 <= i < temp_coords(tk).len() && temp_coords(tk)[i] == c;
            assert(tk[i].0 == c);
            let j = choose|j: int|
                0 <= j < temps.len() && (#[trigger] tk[i]).0 == temps[j].0 && temps[j].1 >= 2
                    && tk[i].1 == temps[j].1 - 1;
            assert(temp_coords(temps)[j] == c);
        }
        assert forall|p: int, q: int|
            0 <= p < temp_coords(tk).len() && 0 <= q < temp_coords(tk).len() && p != q implies
            temp_coords(tk)[p] != temp_coords(tk)[q] by {
            let lo = if p < q {
                p
            } else {
                q
            };
            let hi = if p < q {
                q
            } else {
                p
            };
            if hi < tkd.len() {
                assert(temp_coords(tkd)[lo] == temp_coords(tk)[lo]);
                assert(temp_coords(tkd)[hi] == temp_coords(tk)[hi]);
            } else {
                // `hi` names the decremented last entry; its coordinate
                // appears nowhere among the earlier entries.
                assert(tk[hi as int] == (temps.last().0, (temps.last().1 - 1) as u32));
                assert(temp_coords(tk)[lo] == tkd[lo].0);
                assert(temp_coords(tkd)[lo] == tkd[lo].0);
                assert(temp_coords(tkd).contains(tkd[lo].0));
                assert(temp_coords(d).contains(tkd[lo].0));
                let j = choose|j: int| 0 <= j < d.len() && temp_coords(d)[j] == tkd[lo].0;
                assert(temp_coords(temps)[j] == tkd[lo].0);
                assert(temp_coords(temps)[temps.len() - 1] == temps.last().0);
            }
        }
    }
}

/// Scanning a duplicate-free list of cells and applying the resulting
/// promotions always succeeds, keeps the territory invariants, and
/// leaves only entries that were already temporary.
proof fn lemma_apply_promotions(
    temps: Seq<(Coord, u32)>,
    perms: Seq<Coord>,
    scan: Seq<Coord>,
    all: Seq<Coord>,
    perms0: Seq<Coord>,
    ttc: u32,
)
    requires
        temp_coords(temps).no_duplicates(),
        perms.no_duplicates(),
        forall|i: int| 0 <= i < temps.len() ==> !perms.contains((#[trigger] temps[i]).0),
        scan.no_duplicates(),
        forall|i: int|
            0 <= i < scan.len() && enclosed(#[trigger] scan[i], all, perms0) ==> temp_coords(
                temps,
            ).contains(scan[i]),
    ensures
        ({
            let applied = apply_results(temps, perms, promotions(scan, all, perms0), ttc);
            match applied {
                Some(tp) => {
                    &&& temp_coords(tp.0).no_duplicates()
                    &&& tp.1.no_duplicates()
                    &&& forall|i: int|
                        0 <= i < tp.0.len() ==> !tp.1.contains((#[trigger] tp.0[i]).0)
                    &&& forall|i: int| 0 <= i < tp.0.len() ==> temps.contains(#[trigger] tp.0[i])
                },
                None => false,
            }
        }),
    decreases scan.len(),
{
    if scan.len() == 0 {
        assert(promotions(scan, all, perms0) =~= Seq::<RoundResult>::empty());
        assert forall|i: int| 0 <= i < temps.len() implies temps.contains(#[trigger] temps[i]) by {
            assert(0 <= i < temps.len() && temps[i] == temps[i]);
        }
    } else {
        let c = scan[0];
        let rest = scan.drop_first();
        assert(forall|j: int| 0 <= j < rest.len() ==> #[trigger] rest[j] == scan[j + 1]);
        assert forall|p: int, q: int|
            0 <= p < rest.len() && 0 <= q < rest.len() && p != q implies rest[p] != rest[q] by {
            assert(rest[p] == scan[p + 1]);
            assert(rest[q] == scan[q + 1]);
        }
        if !enclosed(c, all, perms0) {
            assert(promotions(scan, all, perms0) =~= promotions(rest, all, perms0));
            lemma_apply_promotions(temps, perms, rest, all, perms0, ttc);
        } else {
            assert(temp_coords(temps).contains(c));
            lemma_find_coord(temps, c);
            let i0 = find_coord(temps, c);
            assert(temp_coords(temps)[i0] == c);
            let temps2 = temps.remove(i0);
            let perms2 = perms.push(c);
            let promos = promotions(scan, all, perms0);
            assert(promos[0] == RoundResult::ResistanceGainsPoint(c));
            assert(promos.drop_first() =~= promotions(rest, all, perms0));
            lemma_temp_coords_remove(temps, i0);
            lemma_seq_remove_no_dup(temp_coords(temps), i0);
            assert(!perms.contains(temps[i0].0));
            lemma_seq_push_no_dup(perms, c);
            temps.remove_ensures(i0);
            assert forall|i: int| 0 <= i < temps2.len() implies !perms2.contains(
                (#[trigger] temps2[i]).0,
            ) by {
                let oi = if i < i0 {
                    i
                } else {
                    i + 1
                };
                assert(temps2[i] == temps[oi]);
                assert(!perms.contains(temps[oi].0));
                assert(temp_coords(temps)[oi] == temps[oi].0);
                lemma_seq_push_contains(perms, c, temps[oi].0);
            }
            assert forall|i: int|
                0 <= i < rest.len() && enclosed(#[trigger] rest[i], all, perms0) implies
                temp_coords(temps2).contains(rest[i]) by {
                assert(rest[i] == scan[i + 1]);
                assert(temp_coords(temps).contains(scan[i + 1]));
                assert(scan[i + 1] != scan[0]);
                lemma_seq_remove_contains(temp_coords(temps), i0, scan[i + 1]);
            }
            lemma_apply_promotions(temps2, perms2, rest, all, perms0, ttc);
            let applied = apply_results(temps2, perms2, promotions(rest, all, perms0), ttc);
            assert forall|i: int| 0 <= i < applied.unwrap().0.len() implies temps.contains(
                #[trigger] applied.unwrap().0[i],
            ) by {
                assert(temps2.contains(applied.unwrap().0[i]));
                let k = choose|k: int| 0 <= k < temps2.len() && temps2[k] == applied.unwrap().0[i];
                let ok = if k < i0 {
                    k
                } else {
                    k + 1
                };
                assert(temps[ok] == temps2[k]);
                assert(temps.contains(temps[ok]));
            }
            assert(apply_results(temps, perms, promos, ttc) == applied);
        }
    }
}

/// Applying the results the capture rule emits on a well-formed
/// territory always succeeds and keeps the territory invariants; the
/// surviving temporary entries were already temporary, except for the
/// freshly claimed one.
proof fn lemma_round_apply(
    temps: Seq<(Coord, u32)>,
    perms: Seq<Coord>,
    res: ResistanceAction,
    zone: Seq<Coord>,
    ttc: u32,
)
    requires
        temp_coords(temps).no_duplicates(),
        perms.no_duplicates(),
        forall|i: int| 0 <= i < temps.len() ==> !perms.contains((#[trigger] temps[i]).0),
        !perms.contains(res.public_coord),
    ensures
        ({
            let applied = apply_results(
                temps,
                perms,
                round_results_spec(temps, perms, res, zone),
                ttc,
            );
            match applied {
                Some(tp) => {
                    &&& temp_coords(tp.0).no_duplicates()
                    &&& tp.1.no_duplicates()
                    &&& forall|i: int|
                        0 <= i < tp.0.len() ==> !tp.1.contains((#[trigger] tp.0[i]).0)
                    &&& forall|i: int|
                        0 <= i < tp.0.len() ==> temps.contains(#[trigger] tp.0[i]) || tp.0[i] == (
                        res.public_coord,
                        ttc,
                        )
                },
                None => false,
            }
        }),
{
    let t0 = temp_coords(temps);
    let rs = round_results_spec(temps, perms, res, zone);
    if claim_succeeds(t0, res, zone) {
        let pc = res.public_coord;
        let t1 = t0.push(pc);
        let temps1 = temps.push((pc, ttc));
        assert(temp_coords(temps1) =~= t1);
        assert(rs == seq![RoundResult::ResistanceGainsTemporary(pc)] + promotions(t1, t1, perms));
        assert(rs[0] == RoundResult::ResistanceGainsTemporary(pc));
        assert(rs.drop_first() =~= promotions(t1, t1, perms));
        lemma_seq_push_no_dup(t0, pc);
        assert forall|i: int| 0 <= i < temps1.len() implies !perms.contains(
            (#[trigger] temps1[i]).0,
        ) by {
            if i < temps.len() {
                assert(temps1[i] == temps[i]);
            } else {
                assert(temps1[i] == (pc, ttc));
            }
        }
        assert forall|i: int| 0 <= i < t1.len() implies temp_coords(temps1).contains(
            #[trigger] t1[i],
        ) by {
            assert(temp_coords(temps1)[i] == t1[i]);
        }
        lemma_apply_promotions(temps1, perms, t1, t1, perms, ttc);
        let applied = apply_results(temps1, perms, promotions(t1, t1, perms), ttc);
        assert(apply_results(temps, perms, rs, ttc) == applied);
        assert forall|i: int| 0 <= i < applied.unwrap().0.len() implies temps.contains(
            #[trigger] applied.unwrap().0[i],
        ) || applied.unwrap().0[i] == (pc, ttc) by {
            assert(temps1.contains(applied.unwrap().0[i]));
            let k = choose|k: int| 0 <= k < temps1.len() && temps1[k] == applied.unwrap().0[i];
            if k < temps.len() {
                assert(temps[k] == temps1[k]);
                assert(temps.contains(temps[k]));
            } else {
                assert(temps1[k] == (pc, ttc));
            }
        }
    } else {
        assert(rs == promotions(t0, t0, perms));
        assert forall|i: int| 0 <= i < t0.len() implies temp_coords(temps).contains(
            #[trigger] t0[i],
        ) by {
            assert(temp_coords(temps)[i] == t0[i]);
        }
        lemma_apply_promotions(temps, perms, t0, t0, perms, ttc);
    }
}

/// Every result a scan emits is a promotion.
proof fn lemma_promotions_all_points(scan: Seq<Coord>, temps: Seq<Coord>, perms: Seq<Coord>)
    ensures
        forall|i: int|
            0 <= i < promotions(scan, temps, perms).len() ==> (#[trigger] promotions(
                scan,
                temps,
                perms,
            )[i]) is ResistanceGainsPoint,
    decreases scan.len(),
{
    if scan.len() > 0 {
        let rest = scan.drop_first();
        lemma_promotions_all_points(rest, temps, perms);
        let head: Seq<RoundResult> = if enclosed(scan[0], temps, perms) {
            seq![RoundResult::ResistanceGainsPoint(scan[0])]
        } else {
            Seq::empty()
        };
        assert forall|i: int|
            0 <= i < promotions(scan, temps, perms).len() implies (#[trigger] promotions(
            scan,
            temps,
            perms,
        )[i]) is ResistanceGainsPoint by {
            if i >= head.len() {
                assert(promotions(scan, temps, perms)[i] == promotions(rest, temps, perms)[i
                    - head.len()]);
            }
        }
    }
}

/// A scan promotes every cell it passes whose four neighbors are all
/// controlled.
proof fn lemma_promotions_contains(scan: Seq<Coord>, temps: Seq<Coord>, perms: Seq<Coord>, c: Coord)
    requires
        scan.contains(c),
        enclosed(c, temps, perms),
    ensures
        promotions(scan, temps, perms).contains(RoundResult::ResistanceGainsPoint(c)),
    decreases scan.len(),
{
    let head: Seq<RoundResult> = if enclosed(scan[0], temps, perms) {
        seq![RoundResult::ResistanceGainsPoint(scan[0])]
    } else {
        Seq::empty()
    };
    let rest = scan.drop_first();
    if scan[0] == c {
        assert(promotions(scan, temps, perms)[0] == RoundResult::ResistanceGainsPoint(c));
        assert(promotions(scan, temps, perms).contains(RoundResult::ResistanceGainsPoint(c)));
    } else {
        let k = choose|k: int| 0 <= k < scan.len() && scan[k] == c;
        assert(rest[k - 1] == c);
        assert(rest.contains(c));
        lemma_promotions_contains(rest, temps, perms, c);
        let j = choose|j: int|
            0 <= j < promotions(rest, temps, perms).len() && promotions(rest, temps, perms)[j]
                == RoundResult::ResistanceGainsPoint(c);
        assert(promotions(scan, temps, perms)[head.len() + j]
            == RoundResult::ResistanceGainsPoint(c));
        assert(promotions(scan, temps, perms).contains(RoundResult::ResistanceGainsPoint(c)));
    }
}

/// A claim that lands inside the suppression zone, or on a cell that
/// is already temporary, produces no new-temporary result: the
/// round's results are exactly the enclosure promotions over the
/// unchanged temporary tiles.
pub proof fn lemma_suppressed_claim_no_temporary(
    temps: Seq<(Coord, u32)>,
    perms: Seq<Coord>,
    res: ResistanceAction,
    zone: Seq<Coord>,
)
    requires
        temp_coords(temps).contains(res.public_coord) || zone.contains(res.public_coord),
    ensures
        round_results_spec(temps, perms, res, zone) == promotions(
            temp_coords(temps),
            temp_coords(temps),
            perms,
        ),
        forall|i: int|
            0 <= i < round_results_spec(temps, perms, res, zone).len() ==> (
            #[trigger] round_results_spec(temps, perms, res, zone)[i]) is ResistanceGainsPoint,
{
    lemma_promotions_all_points(temp_coords(temps), temp_coords(temps), perms);
}

/// A claim outside the suppression zone on a cell that is not already
/// temporary yields exactly one new-temporary result — first, for the
/// claimed cell; everything after it is an enclosure promotion.
pub proof fn lemma_successful_claim_gains_temporary(
    temps: Seq<(Coord, u32)>,
    perms: Seq<Coord>,
    res: ResistanceAction,
    zone: Seq<Coord>,
)
    requires
        !temp_coords(temps).contains(res.public_coord),
        !zone.contains(res.public_coord),
    ensures
        round_results_spec(temps, perms, res, zone).len() >= 1,
        round_results_spec(temps, perms, res, zone)[0] == RoundResult::ResistanceGainsTemporary(
            res.public_coord,
        ),
        forall|i: int|
            1 <= i < round_results_spec(temps, perms, res, zone).len() ==> (
            #[trigger] round_results_spec(temps, perms, res, zone)[i]) is ResistanceGainsPoint,
{
    let t1 = temp_coords(temps).push(res.public_coord);
    lemma_promotions_all_points(t1, t1, perms);
    let rs = round_results_spec(temps, perms, res, zone);
    assert forall|i: int| 1 <= i < rs.len() implies (#[trigger] rs[i]) is ResistanceGainsPoint by {
        assert(rs[i] == promotions(t1, t1, perms)[i - 1]);
    }
}

/// A temporary tile all four of whose neighbors are already
/// resistance-controlled is promoted this round, whatever the round's
/// claim and suppression zone.
pub proof fn lemma_enclosed_temp_promoted(
    temps: Seq<(Coord, u32)>,
    perms: Seq<Coord>,
    res: ResistanceAction,
    zone: Seq<Coord>,
    c: Coord,
)
    requires
        temp_coords(temps).contains(c),
        enclosed(c, temp_coords(temps), perms),
    ensures
        round_results_spec(temps, perms, res, zone).contains(
            RoundResult::ResistanceGainsPoint(c),
        ),
{
    let t0 = temp_coords(temps);
    let rs = round_results_spec(temps, perms, res, zone);
    if claim_succeeds(t0, res, zone) {
        let t1 = t0.push(res.public_coord);
        let k = choose|k: int| 0 <= k < t0.len() && t0[k] == c;
        assert(t1[k] == c);
        assert(t1.contains(c));
        assert forall|i: int| 0 <= i < 4 implies controlled(
            #[trigger] neighbors_spec(c)[i],
            t1,
            perms,
        ) by {
            lemma_seq_push_contains(t0, res.public_coord, neighbors_spec(c)[i]);
        }
        lemma_promotions_contains(t1, t1, perms, c);
        let j = choose|j: int|
            0 <= j < promotions(t1, t1, perms).len() && promotions(t1, t1, perms)[j]
                == RoundResult::ResistanceGainsPoint(c);
        assert(rs[1 + j] == RoundResult::ResistanceGainsPoint(c));
        assert(rs.contains(RoundResult::ResistanceGainsPoint(c)));
    } else {
        lemma_promotions_contains(t0, t0, perms, c);
    }
}

/// Applying a single new-temporary result appends the claimed cell
/// with a fresh timer and leaves the permanent tiles alone.
pub proof fn lemma_apply_gains_temporary(
    temps: Seq<(Coord, u32)>,
    perms: Seq<Coord>,
    c: Coord,
    ttc: u32,
)
    ensures
        apply_results(temps, perms, seq![RoundResult::ResistanceGainsTemporary(c)], ttc) == Some(
            (temps.push((c, ttc)), perms),
        ),
{
    let rs: Seq<RoundResult> = seq![RoundResult::ResistanceGainsTemporary(c)];
    assert(rs.len() == 1);
    assert(rs[0] == RoundResult::ResistanceGainsTemporary(c));
    assert(rs.drop_first() =~= Seq::<RoundResult>::empty());
    let temps1 = temps.push((c, ttc));
    assert(apply_results(temps1, perms, Seq::<RoundResult>::empty(), ttc) == Some(
        (temps1, perms),
    ));
    assert(apply_results(temps, perms, rs, ttc) == apply_results(
        temps1,
        perms,
        rs.drop_first(),
        ttc,
    ));
}

/// Applying a single promotion removes the cell's first temporary
/// entry — with distinct coordinates its only one — and appends the
/// cell to the permanent tiles exactly once.
pub proof fn lemma_apply_gains_point(
    temps: Seq<(Coord, u32)>,
    perms: Seq<Coord>,
    c: Coord,
    ttc: u32,
)
    requires
        temp_coords(temps).contains(c),
        temp_coords(temps).no_duplicates(),
    ensures
        ({
            let i = find_coord(temps, c);
            &&& apply_results(temps, perms, seq![RoundResult::ResistanceGainsPoint(c)], ttc)
                == Some((temps.remove(i), perms.push(c)))
            &&& !temp_coords(temps.remove(i)).contains(c)
            &&& temps.remove(i).len() == temps.len() - 1
        }),
{
    let rs: Seq<RoundResult> = seq![RoundResult::ResistanceGainsPoint(c)];
    assert(rs.len() == 1);
    assert(rs[0] == RoundResult::ResistanceGainsPoint(c));
    assert(rs.drop_first() =~= Seq::<RoundResult>::empty());
    lemma_find_coord(temps, c);
    let i = find_coord(temps, c);
    temps.remove_ensures(i);
    lemma_temp_coords_remove(temps, i);
    assert(temp_coords(temps)[i] == c);
    lemma_seq_remove_contains(temp_coords(temps), i, c);
    let temps1 = temps.remove(i);
    let perms1 = perms.push(c);
    assert(apply_results(temps1, perms1, Seq::<RoundResult>::empty(), ttc) == Some(
        (temps1, perms1),
    ));
    assert(apply_results(temps, perms, rs, ttc) == apply_results(
        temps1,
        perms1,
        rs.drop_first(),
        ttc,
    ));
}

/// The temporary tiles after `n` timer steps.
pub open spec fn tick_n(temps: Seq<(Coord, u32)>, n: nat) -> Seq<(Coord, u32)>
    decreases n,
{
    if n == 0 {
        temps
    } else {
        tick_n(tick(temps), (n - 1) as nat)
    }
}

/// Every entry surviving a timer step stems from an entry one count
/// higher.
proof fn lemma_tick_entries(temps: Seq<(Coord, u32)>)
    ensures
        forall|i: int|
            0 <= i < tick(temps).len() ==> exists|j: int|
                0 <= j < temps.len() && (#[trigger] tick(temps)[i]).0 == temps[j].0 && temps[j].1
                    >= 2 && tick(temps)[i].1 == temps[j].1 - 1,
    decreases temps.len(),
{
    if temps.len() > 0 {
        let d = temps.drop_last();
        lemma_tick_entries(d);
        let tk = tick(temps);
        let tkd = tick(d);
        assert(forall|i: int| 0 <= i < tkd.len() ==> #[trigger] tk[i] == tkd[i]);
        assert(forall|j: int| 0 <= j < d.len() ==> #[trigger] d[j] == temps[j]);
        assert forall|i: int| 0 <= i < tk.len() implies exists|j: int|
            0 <= j < temps.len() && (#[trigger] tk[i]).0 == temps[j].0 && temps[j].1 >= 2 && tk[i].1
                == temps[j].1 - 1 by {
            if i < tkd.len() {
                let j = choose|j: int|
                    0 <= j < d.len() && (#[trigger] tkd[i]).0 == d[j].0 && d[j].1 >= 2 && tkd[i].1
                        == d[j].1 - 1;
                assert(0 <= j < temps.len() && tk[i].0 == temps[j].0 && temps[j].1 >= 2 && tk[i].1
                    == temps[j].1 - 1);
            } else {
                let j = temps.len() - 1;
                assert(tk[i] == (temps.last().0, (temps.last().1 - 1) as u32));
                assert(0 <= j < temps.len() && tk[i].0 == temps[j].0 && temps[j].1 >= 2 && tk[i].1
                    == temps[j].1 - 1);
            }
        }
    }
}

/// Timer steps never introduce a coordinate: a cell that stopped
/// being temporary cannot come back without a fresh claim.
pub proof fn lemma_tick_no_fresh_coord(temps: Seq<(Coord, u32)>, c: Coord)
    requires
        !temp_coords(temps).contains(c),
    ensures
        !temp_coords(tick(temps)).contains(c),
{
    lemma_tick_entries(temps);
    if temp_coords(tick(temps)).contains(c) {
        let i = choose|i: int|
            0 <= i < temp_coords(tick(temps)).len() && temp_coords(tick(temps))[i] == c;
        assert(tick(temps)[i].0 == c);
        let j = choose|j: int|
            0 <= j < temps.len() && (#[trigger] tick(temps)[i]).0 == temps[j].0 && temps[j].1 >= 2
                && tick(temps)[i].1 == temps[j].1 - 1;
        assert(temp_coords(temps)[j] == c);
        assert(temp_coords(temps).contains(c));
    }
}

/// A temporary tile whose remaining-turn count is at most `n` is gone
/// after `n` timer steps with no promotion in between, and it never
/// reappears without a fresh claim.
pub proof fn lemma_timers_expire(temps: Seq<(Coord, u32)>, c: Coord, n: nat)
    requires
        forall|i: int| 0 <= i < temps.len() ==> (#[trigger] temps[i]).1 >= 1,
        forall|i: int| 0 <= i < temps.len() && (#[trigger] temps[i]).0 == c ==> temps[i].1 <= n,
    ensures
        !temp_coords(tick_n(temps, n)).contains(c),
    decreases n,
{
    if n == 0 {
        if temp_coords(temps).contains(c) {
            let k = choose|k: int| 0 <= k < temp_coords(temps).len() && temp_coords(temps)[k] == c;
            assert(temps[k].0 == c);
            assert(temps[k].1 >= 1 && temps[k].1 <= 0);
        }
    } else {
        lemma_tick_entries(temps);
        let tk = tick(temps);
        assert forall|i: int| 0 <= i < tk.len() implies (#[trigger] tk[i]).1 >= 1 && (tk[i].0 == c
            ==> tk[i].1 <= n - 1) by {
            let j = choose|j: int|
                0 <= j < temps.len() && (#[trigger] tk[i]).0 == temps[j].0 && temps[j].1 >= 2
                    && tk[i].1 == temps[j].1 - 1;
        }
        lemma_timers_expire(tk, c, (n - 1) as nat);
    }
}

/// How a resolved round's state relates to the state it resolved
/// from, for a given pair of actions: the round's results are
/// computed and applied, the timers advance, the pair is logged, and
/// the intake buffer is cleared.
pub open spec fn resolved_from(
    pre: RoundState,
    post: RoundState,
    sup: SuppressionAction,
    res: ResistanceAction,
) -> bool {
    let rs = round_results_spec(
        pre.resistance_temp_tiles@,
        pre.resistance_perm_tiles@,
        res,
        sup.suppression_zone@,
    );
    match apply_results(
        pre.resistance_temp_tiles@,
        pre.resistance_perm_tiles@,
        rs,
        pre.temp_turn_count,
    ) {
        Some(tp) => {
            &&& post.resistance_temp_tiles@ == tick(tp.0)
            &&& post.resistance_perm_tiles@ == tp.1
            &&& post.current_turn == if pre.current_turn == pre.max_turns {
                pre.current_turn as int
            } else {
                pre.current_turn + 1
            }
            &&& post.turn_history@ == pre.turn_history@.push((sup, res))
            &&& post.turn_buffer.0 is None
            &&& post.turn_buffer.1 is None
            &&& post.resistance == pre.resistance
            &&& post.suppression == pre.suppression
            &&& post.max_turns == pre.max_turns
            &&& post.temp_turn_count == pre.temp_turn_count
            &&& post.score_to_win == pre.score_to_win
        },
        None => false,
    }
}

/// How a state that only buffered an action relates to the state
/// before: the buffer holds the given pair and everything else is
/// untouched.
pub open spec fn buffered_only(
    pre: RoundState,
    post: RoundState,
    buf: (Option<SuppressionAction>, Option<ResistanceAction>),
) -> bool {
    &&& post.turn_buffer == buf
    &&& post.resistance == pre.resistance
    &&& post.suppression == pre.suppression
    &&& post.max_turns == pre.max_turns
    &&& post.current_turn == pre.current_turn
    &&& post.temp_turn_count == pre.temp_turn_count
    &&& post.turn_history == pre.turn_history
    &&& post.resistance_perm_tiles == pre.resistance_perm_tiles
    &&& post.resistance_temp_tiles == pre.resistance_temp_tiles
    &&& post.score_to_win == pre.score_to_win
}

/// The aggregate root of one game: both actors, the turn bookkeeping,
/// the intake buffer, the audit log, and the territory state.
pub struct RoundState {
    pub resistance: ResistanceActor,
    pub suppression: SuppressionActor,
    /// The number of turns the resistance player has to win.
    pub max_turns: u32,
    pub current_turn: u32,
    /// How many rounds a newly claimed temporary tile survives
    /// unpromoted.
    pub temp_turn_count: u32,
    /// One pending slot per side, cleared after every resolution.
    pub turn_buffer: (Option<SuppressionAction>, Option<ResistanceAction>),
    /// Every resolved (suppression action, resistance action) pair, in
    /// order.
    pub turn_history: Vec<(SuppressionAction, ResistanceAction)>,
    pub resistance_perm_tiles: Vec<Coord>,
    /// Each provisionally claimed cell with its remaining-turn count.
    pub resistance_temp_tiles: Vec<(Coord, u32)>,
    /// The permanent-tile count at which resistance wins.
    pub score_to_win: u32,
}

impl RoundState {
    /// The structural invariants of a game state: the turn counter
    /// stays within budget, temporary tiles carry timers in
    /// `[1, temp_turn_count]` and distinct, representable coordinates,
    /// permanent tiles are distinct and disjoint from the temporary
    /// ones, and a buffered claim targets a representable cell that is
    /// not already permanent.
    pub open spec fn wf(self) -> bool {
        &&& self.current_turn <= self.max_turns
        &&& self.temp_turn_count >= 1
        &&& forall|i: int|
            0 <= i < self.resistance_temp_tiles@.len() ==> {
                &&& 1 <= (#[trigger] self.resistance_temp_tiles@[i]).1 <= self.temp_turn_count
                &&& interior(self.resistance_temp_tiles@[i].0)
            }
        &&& temp_coords(self.resistance_temp_tiles@).no_duplicates()
        &&& self.resistance_perm_tiles@.no_duplicates()
        &&& forall|i: int|
            0 <= i < self.resistance_temp_tiles@.len() ==> !self.resistance_perm_tiles@.contains(
                (#[trigger] self.resistance_temp_tiles@[i]).0,
            )
        &&& (self.turn_buffer.1 matches Some(a) ==> interior(a.public_coord)
            && !self.resistance_perm_tiles@.contains(a.public_coord))
    }

    /// Whether a terminal condition holds: the turn budget is spent or
    /// the win score is reached.
    pub open spec fn spec_game_over(self) -> bool {
        self.current_turn >= self.max_turns || self.resistance_perm_tiles@.len()
            >= self.score_to_win
    }

    /// Whether the game has ended, either by the resistance reaching
    /// the win score or by the turn budget running out.
    pub fn game_over(&self) -> (r: bool)
        ensures
            r == self.spec_game_over(),
    {
        self.current_turn >= self.max_turns || self.resistance_perm_tiles.len()
            >= self.score_to_win as usize
    }

    /// The number of neighbors of `coord` that are still suppressed,
    /// that is, neither permanent resistance territory nor among the
    /// given temporary coordinates.
    pub fn number_of_suppressed_neighbors(&self, coord: &Coord, temps: &Vec<Coord>) -> (r: u8)
        requires
            interior(*coord),
        ensures
            r as int == count_free(neighbors_spec(*coord), temps@, self.resistance_perm_tiles@),
    {
        let total_neighbors = Tile::neighbors_of(coord);
        let mut free: u8 = 0;
        let mut i: usize = 0;
        while i < total_neighbors.len()
            invariant
                total_neighbors@ == neighbors_spec(*coord),
                i <= total_neighbors@.len(),
                free as int == count_free(
                    total_neighbors@.take(i as int),
                    temps@,
                    self.resistance_perm_tiles@,
                ),
                free as int <= i,
            decreases total_neighbors@.len() - i,
        {
            let n = total_neighbors[i];
            let is_perm = coords_contain(&self.resistance_perm_tiles, n);
            let is_temp = coords_contain(temps, n);
            if !is_perm && !is_temp {
                free = free + 1;
            }
            proof {
                assert(total_neighbors@.take(i as int + 1).drop_last() =~= total_neighbors@.take(
                    i as int,
                ));
                assert(total_neighbors@.take(i as int + 1).last() == total_neighbors@[i as int]);
            }
            i = i + 1;
        }
        proof {
            assert(total_neighbors@.take(total_neighbors@.len() as int) =~= total_neighbors@);
        }
        free
    }

    /// Compares a resistance and a suppression action against the
    /// current territory and returns the round's results in order: the
    /// successful claim first, if any, then the enclosure promotions in
    /// scan order. The state itself is left untouched.
    pub fn round_results(
        &mut self,
        resistance: &ResistanceAction,
        suppression: &SuppressionAction,
    ) -> (results: Vec<RoundResult>)
        requires
            interior(resistance.public_coord),
            all_interior(old(self).resistance_temp_tiles@),
        ensures
            *final(self) == *old(self),
            results@ == round_results_spec(
                old(self).resistance_temp_tiles@,
                old(self).resistance_perm_tiles@,
                *resistance,
                suppression.suppression_zone@,
            ),
    {
        let mut results: Vec<RoundResult> = Vec::new();
        let mut temps: Vec<Coord> = Vec::new();
        let mut i: usize = 0;
        while i < self.resistance_temp_tiles.len()
            invariant
                *self == *old(self),
                i <= self.resistance_temp_tiles@.len(),
                temps@ == temp_coords(self.resistance_temp_tiles@.take(i as int)),
            decreases self.resistance_temp_tiles@.len() - i,
        {
            let t = self.resistance_temp_tiles[i];
            temps.push(t.0);
            proof {
                assert(temp_coords(self.resistance_temp_tiles@.take(i as int + 1)) =~= temp_coords(
                    self.resistance_temp_tiles@.take(i as int),
                ).push(t.0));
            }
            i = i + 1;
        }
        proof {
            assert(self.resistance_temp_tiles@.take(self.resistance_temp_tiles@.len() as int)
                =~= self.resistance_temp_tiles@);
        }
        let already_resistance_temp = coords_contain(&temps, resistance.public_coord);
        let in_zone = coords_contain(&suppression.suppression_zone, resistance.public_coord);
        if !already_resistance_temp && !in_zone {
            results.push(RoundResult::ResistanceGainsTemporary(resistance.public_coord));
            temps.push(resistance.public_coord);
        }
        let ghost t1 = temps@;
        let ghost head = results@;
        let ghost perms = self.resistance_perm_tiles@;
        proof {
            assert(t1.skip(0) =~= t1);
        }
        let mut j: usize = 0;
        while j < temps.len()
            invariant
                *self == *old(self),
                temps@ == t1,
                perms == self.resistance_perm_tiles@,
                j <= t1.len(),
                forall|k: int| 0 <= k < t1.len() ==> interior(#[trigger] t1[k]),
                head + promotions(t1, t1, perms) == results@ + promotions(
                    t1.skip(j as int),
                    t1,
                    perms,
                ),
            decreases t1.len() - j,
        {
            let coord = temps[j];
            let still_suppressed = self.number_of_suppressed_neighbors(&coord, &temps);
            proof {
                lemma_count_free_zero(neighbors_spec(coord), t1, perms);
                assert(t1.skip(j as int)[0] == t1[j as int]);
                assert(t1.skip(j as int).drop_first() =~= t1.skip(j as int + 1));
            }
            if still_suppressed == 0 {
                results.push(RoundResult::ResistanceGainsPoint(coord));
            }
            j = j + 1;
        }
        proof {
            assert(t1.skip(t1.len() as int) =~= Seq::<Coord>::empty());
            assert(results@ + Seq::<RoundResult>::empty() =~= results@);
            assert(head + promotions(t1, t1, perms) == results@);
        }
        results
    }

    /// Applies the round's results in order: a promotion moves the
    /// cell from temporary to permanent, a successful claim adds the
    /// cell as temporary with a fresh timer. Every promoted cell must
    /// be temporary at the moment its result is applied.
    pub fn process_results(&mut self, results: Vec<RoundResult>)
        requires
            apply_results(
                old(self).resistance_temp_tiles@,
                old(self).resistance_perm_tiles@,
                results@,
                old(self).temp_turn_count,
            ) is Some,
        ensures
            ({
                let applied = apply_results(
                    old(self).resistance_temp_tiles@,
                    old(self).resistance_perm_tiles@,
                    results@,
                    old(self).temp_turn_count,
                );
                &&& final(self).resistance_temp_tiles@ == applied.unwrap().0
                &&& final(self).resistance_perm_tiles@ == applied.unwrap().1
            }),
            final(self).resistance == old(self).resistance,
            final(self).suppression == old(self).suppression,
            final(self).max_turns == old(self).max_turns,
            final(self).current_turn == old(self).current_turn,
            final(self).temp_turn_count == old(self).temp_turn_count,
            final(self).turn_buffer == old(self).turn_buffer,
            final(self).turn_history == old(self).turn_history,
            final(self).score_to_win == old(self).score_to_win,
    {
        let ghost t0 = self.resistance_temp_tiles@;
        let ghost p0 = self.resistance_perm_tiles@;
        let ghost ttc = self.temp_turn_count;
        proof {
            assert(results@.skip(0) =~= results@);
        }
        let mut idx: usize = 0;
        while idx < results.len()
            invariant
                idx <= results@.len(),
                self.temp_turn_count == ttc,
                apply_results(
                    self.resistance_temp_tiles@,
                    self.resistance_perm_tiles@,
                    results@.skip(idx as int),
                    ttc,
                ) == apply_results(t0, p0, results@, ttc),
                apply_results(t0, p0, results@, ttc) is Some,
                self.resistance == old(self).resistance,
                self.suppression == old(self).suppression,
                self.max_turns == old(self).max_turns,
                self.current_turn == old(self).current_turn,
                self.turn_buffer == old(self).turn_buffer,
                self.turn_history == old(self).turn_history,
                self.score_to_win == old(self).score_to_win,
            decreases results@.len() - idx,
        {
            let result = results[idx];
            proof {
                assert(results@.skip(idx as int)[0] == results@[idx as int]);
                assert(results@.skip(idx as int).drop_first() =~= results@.skip(idx as int + 1));
            }
            match result {
                RoundResult::ResistanceGainsPoint(coord) => {
                    proof {
                        lemma_find_coord(self.resistance_temp_tiles@, coord);
                    }
                    let index = temp_position(&self.resistance_temp_tiles, coord);
                    self.resistance_temp_tiles.remove(index);
                    self.resistance_perm_tiles.push(coord);
                },
                RoundResult::ResistanceGainsTemporary(coord) => {
                    let fresh = self.temp_turn_count;
                    self.resistance_temp_tiles.push((coord, fresh));
                },
            }
            idx = idx + 1;
        }
        proof {
            assert(results@.skip(results@.len() as int) =~= Seq::<RoundResult>::empty());
        }
    }

    /// Advances the timers by one round: every temporary tile's
    /// remaining-turn count drops by one, expired tiles are removed,
    /// and the turn counter moves forward unless the turn budget is
    /// already spent, which ends the game.
    pub fn decrement_timers(&mut self)
        requires
            forall|i: int|
                0 <= i < old(self).resistance_temp_tiles@.len() ==> (#[trigger] old(
                    self,
                ).resistance_temp_tiles@[i]).1 >= 1,
            old(self).current_turn <= old(self).max_turns,
        ensures
            final(self).resistance_temp_tiles@ == tick(old(self).resistance_temp_tiles@),
            final(self).current_turn == if old(self).current_turn == old(self).max_turns {
                old(self).current_turn as int
            } else {
                old(self).current_turn + 1
            },
            old(self).current_turn == old(self).max_turns ==> final(self).spec_game_over(),
            final(self).resistance == old(self).resistance,
            final(self).suppression == old(self).suppression,
            final(self).max_turns == old(self).max_turns,
            final(self).temp_turn_count == old(self).temp_turn_count,
            final(self).turn_buffer == old(self).turn_buffer,
            final(self).turn_history == old(self).turn_history,
            final(self).resistance_perm_tiles == old(self).resistance_perm_tiles,
            final(self).score_to_win == old(self).score_to_win,
    {
        let mut remaining: Vec<(Coord, u32)> = Vec::new();
        let mut i: usize = 0;
        while i < self.resistance_temp_tiles.len()
            invariant
                *self == *old(self),
                i <= self.resistance_temp_tiles@.len(),
                remaining@ == tick(self.resistance_temp_tiles@.take(i as int)),
            decreases self.resistance_temp_tiles@.len() - i,
        {
            let tile = self.resistance_temp_tiles[i];
            proof {
                assert(self.resistance_temp_tiles@.take(i as int + 1).drop_last()
                    =~= self.resistance_temp_tiles@.take(i as int));
                assert(self.resistance_temp_tiles@.take(i as int + 1).last() == tile);
            }
            if tile.1 > 1 {
                remaining.push((tile.0, tile.1 - 1));
            }
            i = i + 1;
        }
        proof {
            assert(self.resistance_temp_tiles@.take(self.resistance_temp_tiles@.len() as int)
                =~= self.resistance_temp_tiles@);
        }
        self.resistance_temp_tiles = remaining;
        if self.current_turn == self.max_turns {
            // The turn budget is spent: the counter stays put and the
            // state now reads as a terminal one.
        } else {
            self.current_turn = self.current_turn + 1;
        }
    }

    /// Resolves the buffered round: computes the results of the
    /// buffered pair, applies them, advances the timers, logs the
    /// pair, and clears the buffer.
    pub fn resolve_turn(&mut self)
        requires
            old(self).wf(),
            old(self).turn_buffer.0 is Some,
            old(self).turn_buffer.1 is Some,
        ensures
            final(self).wf(),
            resolved_from(
                *old(self),
                *final(self),
                old(self).turn_buffer.0.unwrap(),
                old(self).turn_buffer.1.unwrap(),
            ),
    {
        let ghost pre = *old(self);
        let sup = self.turn_buffer.0.take().unwrap();
        let res = self.turn_buffer.1.take().unwrap();
        let results = self.round_results(&res, &sup);
        proof {
            lemma_round_apply(
                pre.resistance_temp_tiles@,
                pre.resistance_perm_tiles@,
                res,
                sup.suppression_zone@,
                pre.temp_turn_count,
            );
        }
        self.process_results(results);
        let ghost applied = apply_results(
            pre.resistance_temp_tiles@,
            pre.resistance_perm_tiles@,
            round_results_spec(
                pre.resistance_temp_tiles@,
                pre.resistance_perm_tiles@,
                res,
                sup.suppression_zone@,
            ),
            pre.temp_turn_count,
        );
        proof {
            assert forall|i: int|
                0 <= i < self.resistance_temp_tiles@.len() implies (
            #[trigger] self.resistance_temp_tiles@[i]).1 >= 1 by {
                let e = applied.unwrap().0[i];
                if pre.resistance_temp_tiles@.contains(e) {
                    let k = choose|k: int|
                        0 <= k < pre.resistance_temp_tiles@.len()
                            && pre.resistance_temp_tiles@[k] == e;
                }
            }
        }
        self.decrement_timers();
        self.turn_history.push((sup, res));
        proof {
            let tp = applied.unwrap();
            lemma_tick_wf(tp.0);
            let tk = tick(tp.0);
            assert forall|i: int|
                0 <= i < tk.len() implies {
                &&& 1 <= (#[trigger] tk[i]).1 <= pre.temp_turn_count
                &&& interior(tk[i].0)
            } by {
                let j = choose|j: int|
                    0 <= j < tp.0.len() && (#[trigger] tk[i]).0 == tp.0[j].0 && tp.0[j].1 >= 2
                        && tk[i].1 == tp.0[j].1 - 1;
                let e = tp.0[j];
                if pre.resistance_temp_tiles@.contains(e) {
                    let k = choose|k: int|
                        0 <= k < pre.resistance_temp_tiles@.len()
                            && pre.resistance_temp_tiles@[k] == e;
                }
            }
            assert forall|i: int| 0 <= i < tk.len() implies !self.resistance_perm_tiles@.contains(
                (#[trigger] tk[i]).0,
            ) by {
                assert(temp_coords(tk)[i] == tk[i].0);
                assert(temp_coords(tk).contains(tk[i].0));
                assert(temp_coords(tp.0).contains(tk[i].0));
                let j = choose|j: int| 0 <= j < tp.0.len() && temp_coords(tp.0)[j] == tk[i].0;
                assert(!tp.1.contains(tp.0[j].0));
            }
            assert(self.wf());
        }
    }

    /// Initiates the turn change when the buffer holds one action per
    /// side; otherwise leaves the state untouched.
    pub fn process_turn_buffer(&mut self)
        requires
            old(self).wf(),
        ensures
            final(self).wf(),
            old(self).turn_buffer.0 is Some && old(self).turn_buffer.1 is Some ==> resolved_from(
                *old(self),
                *final(self),
                old(self).turn_buffer.0.unwrap(),
                old(self).turn_buffer.1.unwrap(),
            ),
            !(old(self).turn_buffer.0 is Some && old(self).turn_buffer.1 is Some) ==> *final(self)
                == *old(self),
    {
        if self.turn_buffer.0.is_some() && self.turn_buffer.1.is_some() {
            self.resolve_turn()
        }
    }

    /// Stores a suppression action into its buffer slot, overwriting
    /// any unresolved one (last write wins), then attempts resolution.
    /// Rejected once the game is over.
    pub fn intake_suppression_action(&mut self, action: SuppressionAction) -> (r: Result<
        (),
        IntakeError,
    >)
        requires
            old(self).wf(),
        ensures
            final(self).wf(),
            old(self).spec_game_over() ==> r == Result::<(), IntakeError>::Err(
                IntakeError::GameAlreadyOver,
            ) && *final(self) == *old(self),
            !old(self).spec_game_over() ==> r is Ok && (if old(self).turn_buffer.1 is Some {
                resolved_from(
                    *old(self),
                    *final(self),
                    action,
                    old(self).turn_buffer.1.unwrap(),
                )
            } else {
                buffered_only(
                    *old(self),
                    *final(self),
                    (Some(action), old(self).turn_buffer.1),
                )
            }),
    {
        if self.game_over() {
            return Err(IntakeError::GameAlreadyOver);
        }
        self.turn_buffer.0 = Some(action);
        self.process_turn_buffer();
        Ok(())
    }

    /// Stores a resistance action into its buffer slot, overwriting
    /// any unresolved one (last write wins), then attempts resolution.
    /// Rejected once the game is over. The claimed cell must have
    /// representable neighbors and must not already be permanent
    /// territory.
    pub fn intake_resistance_action(&mut self, action: ResistanceAction) -> (r: Result<
        (),
        IntakeError,
    >)
        requires
            old(self).wf(),
            interior(action.public_coord),
            !old(self).resistance_perm_tiles@.contains(action.public_coord),
        ensures
            final(self).wf(),
            old(self).spec_game_over() ==> r == Result::<(), IntakeError>::Err(
                IntakeError::GameAlreadyOver,
            ) && *final(self) == *old(self),
            !old(self).spec_game_over() ==> r is Ok && (if old(self).turn_buffer.0 is Some {
                resolved_from(
                    *old(self),
                    *final(self),
                    old(self).turn_buffer.0.unwrap(),
                    action,
                )
            } else {
                buffered_only(
                    *old(self),
                    *final(self),
                    (old(self).turn_buffer.0, Some(action)),
                )
            }),
    {
        if self.game_over() {
            return Err(IntakeError::GameAlreadyOver);
        }
        self.turn_buffer.1 = Some(action);
        self.process_turn_buffer();
        Ok(())
    }
}

impl Default for RoundState {
    /// The starting configuration of a game: a twenty-turn budget,
    /// three-round temporary tiles, a win score of five, and empty
    /// histories and territories.
    fn default() -> (r: Self)
        ensures
            r.wf(),
            !r.spec_game_over(),
            r.max_turns == 20,
            r.current_turn == 0,
            r.temp_turn_count == 3,
            r.score_to_win == 5,
            r.turn_buffer.0 is None,
            r.turn_buffer.1 is None,
            r.turn_history@ == Seq::<(SuppressionAction, ResistanceAction)>::empty(),
            r.resistance_perm_tiles@ == Seq::<Coord>::empty(),
            r.resistance_temp_tiles@ == Seq::<(Coord, u32)>::empty(),
            r.resistance.action_queue@ == Seq::<ResistanceAction>::empty(),
            r.suppression.action_queue@ == Seq::<SuppressionAction>::empty(),
    {
        RoundState {
            resistance: ResistanceActor::new(),
            suppression: SuppressionActor::new(),
            max_turns: 20,
            current_turn: 0,
            temp_turn_count: 3,
            turn_buffer: (None, None),
            turn_history: Vec::new(),
            resistance_perm_tiles: Vec::new(),
            resistance_temp_tiles: Vec::new(),
            score_to_win: 5,
        }
    }
}

} // verus!
