use vstd::prelude::*;
use crate::block::{BlockV, precedes, views};
use crate::state_vector::at;
use crate::store::{Store, Update, added_of, block_set, canonical, clocks_of, consistent, has_id, missing, run, visible, winner, wins};

verus! {

/// When every block of `u` is below its replica's clock, integration is a
/// no-op.
pub proof fn lemma_run_all_seen(m: Map<u64, u64>, u: Seq<BlockV>)
    requires
        forall|k: int| 0 <= k < u.len() ==> u[k].clock < at(m, u[k].origin),
    ensures
        run(m, u) == Some((m, Set::<BlockV>::empty(), 0nat)),
    decreases u.len(),
{
    if u.len() > 0 {
        let rest = u.drop_first();
        assert forall|k: int| 0 <= k < rest.len() implies rest[k].clock < at(m, rest[k].origin) by {
            assert(rest[k] == u[k + 1]);
        }
        lemma_run_all_seen(m, rest);
    }
}

/// Integrating the same update twice: the second time applies no block and
/// leaves clocks and blocks as the first left them.
pub proof fn law_integrate_idempotent(m: Map<u64, u64>, s: Set<BlockV>, u: Seq<BlockV>)
    requires
        consistent(m, s),
        run(m, u) is Some,
    ensures
        run(clocks_of(run(m, u)), u) == Some((clocks_of(run(m, u)), Set::<BlockV>::empty(), 0nat)),
        s.union(added_of(run(m, u))).union(Set::<BlockV>::empty()) == s.union(added_of(run(m, u))),
{
    crate::store::lemma_run_consistent(m, s, u);
    lemma_run_all_seen(clocks_of(run(m, u)), u);
    assert(s.union(added_of(run(m, u))).union(Set::<BlockV>::empty()) =~= s.union(added_of(run(m, u))));
}

/// Some block of `u` comes from replica `r`.
pub open spec fn touches(u: Seq<BlockV>, r: u64) -> bool {
    exists|k: int| 0 <= k < u.len() && u[k].origin == r
}

/// Integration moves only the clocks of replicas that the update names.
pub proof fn lemma_run_untouched(m: Map<u64, u64>, u: Seq<BlockV>, r: u64)
    requires
        run(m, u) is Some,
        !touches(u, r),
    ensures
        at(clocks_of(run(m, u)), r) == at(m, r),
    decreases u.len(),
{
    if u.len() > 0 {
        let b = u[0];
        let rest = u.drop_first();
        assert(!touches(rest, r)) by {
            if touches(rest, r) {
                let k = choose|k: int| 0 <= k < rest.len() && rest[k].origin == r;
                assert(u[k + 1].origin == r);
            }
        }
        assert(b.origin != r);
        if b.clock < at(m, b.origin) {
            lemma_run_untouched(m, rest, r);
        } else {
            lemma_run_untouched(m.insert(b.origin, (b.clock + 1) as u64), rest, r);
        }
    }
}

/// Integration reads the clocks of the replicas that the update names only.
pub proof fn lemma_run_frame(m1: Map<u64, u64>, m2: Map<u64, u64>, u: Seq<BlockV>)
    requires
        forall|r: u64| touches(u, r) ==> at(m1, r) == at(m2, r),
    ensures
        (run(m1, u) is Some) == (run(m2, u) is Some),
        run(m1, u) is Some ==> added_of(run(m1, u)) == added_of(run(m2, u)),
        run(m1, u) is Some ==> forall|r: u64| touches(u, r) ==> at(clocks_of(run(m1, u)), r) == at(clocks_of(run(m2, u)), r),
    decreases u.len(),
{
    if u.len() > 0 {
        let b = u[0];
        let rest = u.drop_first();
        assert(touches(u, b.origin));
        assert forall|r: u64| touches(rest, r) implies touches(u, r) by {
            let k = choose|k: int| 0 <= k < rest.len() && rest[k].origin == r;
            assert(u[k + 1].origin == r);
        }
        if b.clock < at(m1, b.origin) {
            lemma_run_frame(m1, m2, rest);
            if run(m1, u) is Some {
                assert forall|r: u64| touches(u, r) implies at(clocks_of(run(m1, u)), r) == at(clocks_of(run(m2, u)), r) by {
                    if !touches(rest, r) {
                        lemma_run_untouched(m1, rest, r);
                        lemma_run_untouched(m2, rest, r);
                    }
                }
            }
        } else if b.clock == at(m1, b.origin) {
            let n1 = m1.insert(b.origin, (b.clock + 1) as u64);
            let n2 = m2.insert(b.origin, (b.clock + 1) as u64);
            lemma_run_frame(n1, n2, rest);
            if run(m1, u) is Some {
                assert forall|r: u64| touches(u, r) implies at(clocks_of(run(m1, u)), r) == at(clocks_of(run(m2, u)), r) by {
                    if !touches(rest, r) {
                        lemma_run_untouched(n1, rest, r);
                        lemma_run_untouched(n2, rest, r);
                    }
                }
            }
        }
    }
}

/// Two updates from disjoint sets of replicas, each integrable into a fresh
/// store, can be integrated in either order: the clocks, the blocks and so
/// the visible entries come out the same.
pub proof fn law_integrate_commutes(u1: Seq<BlockV>, u2: Seq<BlockV>)
    requires
        forall|i: int, j: int| 0 <= i < u1.len() && 0 <= j < u2.len() ==> u1[i].origin != u2[j].origin,
        run(Map::empty(), u1) is Some,
        run(Map::empty(), u2) is Some,
    ensures
        ({
            let r1 = run(Map::empty(), u1);
            let r2 = run(Map::empty(), u2);
            let r12 = run(clocks_of(r1), u2);
            let r21 = run(clocks_of(r2), u1);
            let s12 = Set::<BlockV>::empty().union(added_of(r1)).union(added_of(r12));
            let s21 = Set::<BlockV>::empty().union(added_of(r2)).union(added_of(r21));
            &&& r12 is Some
            &&& r21 is Some
            &&& s12 == s21
            &&& forall|r: u64| at(clocks_of(r12), r) == at(clocks_of(r21), r)
            &&& visible(s12) == visible(s21)
        }),
{
    let e = Map::<u64, u64>::empty();
    let r1 = run(e, u1);
    let r2 = run(e, u2);
    assert forall|r: u64| touches(u2, r) implies at(clocks_of(r1), r) == at(e, r) by {
        assert(!touches(u1, r));
        lemma_run_untouched(e, u1, r);
    }
    assert forall|r: u64| touches(u1, r) implies at(clocks_of(r2), r) == at(e, r) by {
        assert(!touches(u2, r));
        lemma_run_untouched(e, u2, r);
    }
    lemma_run_frame(clocks_of(r1), e, u2);
    lemma_run_frame(clocks_of(r2), e, u1);
    let r12 = run(clocks_of(r1), u2);
    let r21 = run(clocks_of(r2), u1);
    assert forall|r: u64| at(clocks_of(r12), r) == at(clocks_of(r21), r) by {
        if touches(u2, r) {
            assert(!touches(u1, r));
            lemma_run_untouched(clocks_of(r2), u1, r);
        } else if touches(u1, r) {
            lemma_run_untouched(clocks_of(r1), u2, r);
        } else {
            lemma_run_untouched(clocks_of(r1), u2, r);
            lemma_run_untouched(clocks_of(r2), u1, r);
            lemma_run_untouched(e, u1, r);
            lemma_run_untouched(e, u2, r);
        }
    }
    let s12 = Set::<BlockV>::empty().union(added_of(r1)).union(added_of(r12));
    let s21 = Set::<BlockV>::empty().union(added_of(r2)).union(added_of(r21));
    assert(s12 =~= s21);
}

/// Two writes to one key at the same clock from different replicas, each
/// next in line for its replica, integrated in either order into a store
/// with no earlier write on that key: the greater replica id wins both
/// times.
pub proof fn law_tie_break(m: Map<u64, u64>, s: Set<BlockV>, x: BlockV, y: BlockV)
    requires
        consistent(m, s),
        forall|c: BlockV| s.contains(c) ==> c.key != y.key,
        x.key == y.key,
        x.clock == y.clock,
        x.clock < u64::MAX,
        at(m, x.origin) == x.clock,
        at(m, y.origin) == y.clock,
        x.origin < y.origin,
    ensures
        ({
            let rx = run(m, seq![x]);
            let ry = run(m, seq![y]);
            let rxy = run(clocks_of(rx), seq![y]);
            let ryx = run(clocks_of(ry), seq![x]);
            let sxy = s.union(added_of(rx)).union(added_of(rxy));
            let syx = s.union(added_of(ry)).union(added_of(ryx));
            &&& rx is Some && ry is Some && rxy is Some && ryx is Some
            &&& winner(sxy, y.key) == y
            &&& winner(syx, y.key) == y
        }),
{
    let mx = m.insert(x.origin, (x.clock + 1) as u64);
    let my = m.insert(y.origin, (y.clock + 1) as u64);
    assert(seq![x].drop_first() =~= Seq::<BlockV>::empty());
    assert(seq![y].drop_first() =~= Seq::<BlockV>::empty());
    assert(run(mx, Seq::<BlockV>::empty()) == Some((mx, Set::<BlockV>::empty(), 0nat)));
    assert(run(my, Seq::<BlockV>::empty()) == Some((my, Set::<BlockV>::empty(), 0nat)));
    assert(seq![x][0] == x && seq![y][0] == y);
    assert(run(m, seq![x]) == Some((mx, Set::<BlockV>::empty().insert(x), 1nat)));
    assert(run(m, seq![y]) == Some((my, Set::<BlockV>::empty().insert(y), 1nat)));
    assert(at(mx, y.origin) == y.clock);
    assert(at(my, x.origin) == x.clock);
    let mxy = mx.insert(y.origin, (y.clock + 1) as u64);
    let myx = my.insert(x.origin, (x.clock + 1) as u64);
    assert(run(mxy, Seq::<BlockV>::empty()) == Some((mxy, Set::<BlockV>::empty(), 0nat)));
    assert(run(myx, Seq::<BlockV>::empty()) == Some((myx, Set::<BlockV>::empty(), 0nat)));
    assert(run(mx, seq![y]) == Some((mxy, Set::<BlockV>::empty().insert(y), 1nat)));
    assert(run(my, seq![x]) == Some((myx, Set::<BlockV>::empty().insert(x), 1nat)));
    let both = s.insert(x).insert(y);
    let sxy = s.union(added_of(run(m, seq![x]))).union(added_of(run(mx, seq![y])));
    let syx = s.union(added_of(run(m, seq![y]))).union(added_of(run(my, seq![x])));
    assert(sxy =~= both);
    assert(syx =~= both);
    assert(precedes(x, y));
    assert(wins(both, y)) by {
        assert forall|c: BlockV| #[trigger] both.contains(c) && c.key == y.key implies !precedes(y, c) by {
            if c != x && c != y {
                assert(s.contains(c));
            }
        }
    }
    assert forall|b: BlockV| wins(both, b) && b.key == y.key implies b == y by {
        if b != y && b != x {
            assert(s.contains(b));
        }
        if b == x {
            assert(both.contains(y));
        }
    }
}

/// In canonical order, replica ids never go down, and clocks go up within
/// one replica.
pub proof fn lemma_canonical_order(u: Seq<BlockV>, i: int, j: int)
    requires
        canonical(u),
        0 <= i < j < u.len(),
    ensures
        u[i].origin < u[j].origin || (u[i].origin == u[j].origin && u[i].clock < u[j].clock),
    decreases j - i,
{
    assert(u[j - 1].origin < u[j].origin || (u[j - 1].origin == u[j].origin && u[j].clock == u[j - 1].clock + 1));
    if i < j - 1 {
        lemma_canonical_order(u, i, j - 1);
    }
}

/// Each run of blocks of one replica starts at that replica's clock.
pub open spec fn starts_at_clocks(m: Map<u64, u64>, u: Seq<BlockV>) -> bool {
    forall|k: int| 0 <= k < u.len() && (k == 0 || u[k - 1].origin != u[k].origin) ==> (#[trigger] u[k]).clock == at(m, u[k].origin)
}

/// A canonical update whose runs start at the receiver's clocks applies in
/// full.
pub proof fn lemma_run_canonical(m: Map<u64, u64>, u: Seq<BlockV>)
    requires
        canonical(u),
        starts_at_clocks(m, u),
        forall|k: int| 0 <= k < u.len() ==> u[k].clock < u64::MAX,
    ensures
        run(m, u) is Some,
        added_of(run(m, u)) == Set::new(|b: BlockV| u.contains(b)),
    decreases u.len(),
{
    if u.len() == 0 {
        assert(Set::new(|b: BlockV| u.contains(b)) =~= Set::<BlockV>::empty());
    } else {
        let b = u[0];
        let o = b.origin;
        assert(b == u[0]);
        let m1 = m.insert(o, (b.clock + 1) as u64);
        let rest = u.drop_first();
        assert(canonical(rest)) by {
            assert forall|i: int| 0 <= i < rest.len() - 1 implies ((#[trigger] rest[i]).origin < rest[i + 1].origin || (rest[i].origin
                == rest[i + 1].origin && rest[i + 1].clock == rest[i].clock + 1)) by {
                assert(rest[i] == u[i + 1] && rest[i + 1] == u[i + 2]);
                assert(u[i + 1] == u[i + 1]);
            }
        }
        assert(starts_at_clocks(m1, rest)) by {
            assert forall|k: int| 0 <= k < rest.len() && (k == 0 || rest[k - 1].origin != rest[k].origin) implies (#[trigger] rest[k]).clock
                == at(m1, rest[k].origin) by {
                assert(rest[k] == u[k + 1]);
                assert(u[k] == u[k]);
                if k == 0 && u[0].origin == u[1].origin {
                    assert(u[1].clock == u[0].clock + 1);
                } else {
                    if k > 0 {
                        assert(rest[k - 1] == u[k]);
                    }
                    assert(u[k + 1].clock == at(m, u[k + 1].origin));
                    assert(u[k].origin < u[k + 1].origin);
                    if k > 0 {
                        lemma_canonical_order(u, 0, k);
                    }
                }
            }
        }
        assert forall|k: int| 0 <= k < rest.len() implies rest[k].clock < u64::MAX by {
            assert(rest[k] == u[k + 1]);
        }
        lemma_run_canonical(m1, rest);
        assert(Set::new(|x: BlockV| rest.contains(x)).insert(b) =~= Set::new(|x: BlockV| u.contains(x))) by {
            assert forall|x: BlockV| u.contains(x) implies x == b || rest.contains(x) by {
                let k = choose|k: int| 0 <= k < u.len() && u[k] == x;
                if k > 0 {
                    assert(rest[k - 1] == x);
                }
            }
            assert forall|x: BlockV| rest.contains(x) implies u.contains(x) by {
                let k = choose|k: int| 0 <= k < rest.len() && rest[k] == x;
                assert(u[k + 1] == x);
            }
        }
    }
}

proof fn lemma_diff_start_one(m: Map<u64, u64>, mb: Map<u64, u64>, sb: Set<BlockV>, u: Seq<BlockV>, k: int)
    requires
        consistent(mb, sb),
        canonical(u),
        forall|x: BlockV| u.contains(x) <==> missing(sb, m).contains(x),
        0 <= k < u.len(),
        k == 0 || u[k - 1].origin != u[k].origin,
    ensures
        u[k].clock == at(m, u[k].origin),
{
    let b = u[k];
    let o = b.origin;
    assert(u.contains(b));
    assert(missing(sb, m).contains(b));
    let c0 = at(m, o);
    if b.clock > c0 {
        assert(sb.contains(b));
        assert(b.clock < at(mb, o));
        assert(has_id(sb, o, c0));
        let w = choose|w: BlockV| sb.contains(w) && w.origin == o && w.clock == c0;
        assert(missing(sb, m).contains(w));
        assert(u.contains(w));
        let i = choose|i: int| 0 <= i < u.len() && u[i] == w;
        if i < k {
            if i < k - 1 {
                lemma_canonical_order(u, i, k - 1);
            }
            assert(u[k - 1].origin < u[k].origin || (u[k - 1].origin == u[k].origin && u[k].clock == u[k - 1].clock + 1));
        } else if i > k {
            lemma_canonical_order(u, k, i);
        }
    }
}

/// The blocks that a diff against clocks `m` carries start each replica's
/// run at `m`'s clock for it.
pub proof fn lemma_diff_starts(m: Map<u64, u64>, mb: Map<u64, u64>, sb: Set<BlockV>, u: Seq<BlockV>)
    requires
        consistent(mb, sb),
        canonical(u),
        forall|x: BlockV| u.contains(x) <==> missing(sb, m).contains(x),
    ensures
        starts_at_clocks(m, u),
        forall|k: int| 0 <= k < u.len() ==> u[k].clock < u64::MAX,
{
    assert forall|k: int| 0 <= k < u.len() implies u[k].clock < u64::MAX by {
        assert(u.contains(u[k]));
        assert(sb.contains(u[k]));
    }
    assert forall|k: int| 0 <= k < u.len() && (k == 0 || u[k - 1].origin != u[k].origin) implies (#[trigger] u[k]).clock == at(m, u[k].origin) by {
        lemma_diff_start_one(m, mb, sb, u, k);
    }
}

proof fn lemma_block_set_views(bs: Seq<crate::block::Block>)
    ensures
        forall|x: BlockV| views(bs).contains(x) <==> block_set(bs).contains(x),
{
    assert forall|x: BlockV| views(bs).contains(x) <==> block_set(bs).contains(x) by {
        if views(bs).contains(x) {
            let i = choose|i: int| 0 <= i < views(bs).len() && views(bs)[i] == x;
            assert(bs[i]@ == x);
        }
        if block_set(bs).contains(x) {
            let i = choose|i: int| 0 <= i < bs.len() && bs[i]@ == x;
            assert(views(bs)[i] == x);
        }
    }
}

/// Two stores that each integrate the other's diff against their own state
/// vector end up holding the same blocks, and so show the same entries.
/// Replica ids are taken to be unique: a block id names the same write in
/// both stores.
pub proof fn law_convergence(a: Store, b: Store, to_a: Update, to_b: Update)
    requires
        a.wf(),
        b.wf(),
        forall|x: BlockV, y: BlockV|
            a.contents().contains(x) && b.contents().contains(y) && x.origin == y.origin && x.clock == y.clock ==> x == y,
        block_set(to_a.blocks@) == missing(b.contents(), a.sv@),
        canonical(views(to_a.blocks@)),
        block_set(to_b.blocks@) == missing(a.contents(), b.sv@),
        canonical(views(to_b.blocks@)),
    ensures
        ({
            let ra = run(a.sv@, views(to_a.blocks@));
            let rb = run(b.sv@, views(to_b.blocks@));
            &&& ra is Some
            &&& rb is Some
            &&& a.contents().union(added_of(ra)) == b.contents().union(added_of(rb))
            &&& visible(a.contents().union(added_of(ra))) == visible(b.contents().union(added_of(rb)))
        }),
{
    let ua = views(to_a.blocks@);
    let ub = views(to_b.blocks@);
    let sa = a.contents();
    let sb = b.contents();
    lemma_block_set_views(to_a.blocks@);
    lemma_block_set_views(to_b.blocks@);
    lemma_diff_starts(a.sv@, b.sv@, sb, ua);
    lemma_diff_starts(b.sv@, a.sv@, sa, ub);
    lemma_run_canonical(a.sv@, ua);
    lemma_run_canonical(b.sv@, ub);
    let ra = run(a.sv@, ua);
    let rb = run(b.sv@, ub);
    assert forall|x: BlockV| sa.union(added_of(ra)).contains(x) implies sb.union(added_of(rb)).contains(x) by {
        if sa.contains(x) {
            if x.clock < at(b.sv@, x.origin) {
                assert(has_id(sb, x.origin, x.clock));
                let y = choose|y: BlockV| sb.contains(y) && y.origin == x.origin && y.clock == x.clock;
                assert(x == y);
            } else {
                assert(missing(sa, b.sv@).contains(x));
                assert(ub.contains(x));
            }
        } else {
            assert(ua.contains(x));
        }
    }
    assert forall|x: BlockV| sb.union(added_of(rb)).contains(x) implies sa.union(added_of(ra)).contains(x) by {
        if sb.contains(x) {
            if x.clock < at(a.sv@, x.origin) {
                assert(has_id(sa, x.origin, x.clock));
                let y = choose|y: BlockV| sa.contains(y) && y.origin == x.origin && y.clock == x.clock;
                assert(x == y);
            } else {
                assert(missing(sb, a.sv@).contains(x));
                assert(ua.contains(x));
            }
        } else {
            assert(ub.contains(x));
        }
    }
    assert(sa.union(added_of(ra)) =~= sb.union(added_of(rb)));
}


/// Convergence when the exchange happens in turn: A integrates B's diff
/// against A's state vector, then B integrates the updated A's diff against
/// B's state vector. Both end up holding the same blocks, and so show the
/// same entries. Replica ids are taken to be unique, as above.
pub proof fn law_convergence_in_turn(a: Store, b: Store, to_a: Update, a1: Store, to_b: Update)
    requires
        a.wf(),
        b.wf(),
        forall|x: BlockV, y: BlockV|
            a.contents().contains(x) && b.contents().contains(y) && x.origin == y.origin && x.clock == y.clock ==> x == y,
        block_set(to_a.blocks@) == missing(b.contents(), a.sv@),
        canonical(views(to_a.blocks@)),
        run(a.sv@, views(to_a.blocks@)) is Some ==> a1.wf() && a1.sv@ == clocks_of(run(a.sv@, views(to_a.blocks@)))
            && a1.contents() == a.contents().union(added_of(run(a.sv@, views(to_a.blocks@)))),
        block_set(to_b.blocks@) == missing(a1.contents(), b.sv@),
        canonical(views(to_b.blocks@)),
    ensures
        run(a.sv@, views(to_a.blocks@)) is Some,
        run(b.sv@, views(to_b.blocks@)) is Some,
        a1.contents() == b.contents().union(added_of(run(b.sv@, views(to_b.blocks@)))),
        visible(a1.contents()) == visible(b.contents().union(added_of(run(b.sv@, views(to_b.blocks@))))),
{
    let ua = views(to_a.blocks@);
    let ub = views(to_b.blocks@);
    let sa = a.contents();
    let sb = b.contents();
    lemma_block_set_views(to_a.blocks@);
    lemma_block_set_views(to_b.blocks@);
    lemma_diff_starts(a.sv@, b.sv@, sb, ua);
    lemma_run_canonical(a.sv@, ua);
    let ra = run(a.sv@, ua);
    let sa1 = a1.contents();
    lemma_diff_starts(b.sv@, a1.sv@, sa1, ub);
    lemma_run_canonical(b.sv@, ub);
    let rb = run(b.sv@, ub);
    assert forall|x: BlockV| sa1.contains(x) implies sb.union(added_of(rb)).contains(x) by {
        if x.clock < at(b.sv@, x.origin) {
            assert(has_id(sb, x.origin, x.clock));
            let y = choose|y: BlockV| sb.contains(y) && y.origin == x.origin && y.clock == x.clock;
            if sa.contains(x) {
                assert(x == y);
            } else {
                assert(ua.contains(x));
                assert(missing(sb, a.sv@).contains(x));
            }
        } else {
            assert(missing(sa1, b.sv@).contains(x));
            assert(ub.contains(x));
        }
    }
    assert forall|x: BlockV| sb.union(added_of(rb)).contains(x) implies sa1.contains(x) by {
        if sb.contains(x) {
            if x.clock < at(a.sv@, x.origin) {
                assert(has_id(sa, x.origin, x.clock));
                let y = choose|y: BlockV| sa.contains(y) && y.origin == x.origin && y.clock == x.clock;
                assert(x == y);
            } else {
                assert(missing(sb, a.sv@).contains(x));
                assert(ua.contains(x));
            }
        } else {
            assert(ub.contains(x));
        }
    }
    assert(sa1 =~= sb.union(added_of(rb)));
}

} // verus!
