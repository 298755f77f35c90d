use vstd::prelude::*;
use crate::block::{Block, BlockV, Payload, PayloadV, precedes, views};
use crate::state_vector::{StateVector, at};

verus! {

/// Why an update was refused.
#[derive(Debug, PartialEq, Eq)]
pub enum SyncError {
    /// The bytes are not a well-formed update.
    MalformedUpdate,
    /// A block's earlier writes from its replica are missing.
    CausalGap,
}

/// A batch of blocks together with the sender's state vector.
#[derive(Debug)]
pub struct Update {
    pub blocks: Vec<Block>,
    pub sv: StateVector,
}

/// The set of block values held in a list.
pub open spec fn block_set(bs: Seq<Block>) -> Set<BlockV> {
    Set::new(|v: BlockV| exists|i: int| 0 <= i < bs.len() && bs[i]@ == v)
}

/// Some block of `s` has id (`o`, `c`).
pub open spec fn has_id(s: Set<BlockV>, o: u64, c: u64) -> bool {
    exists|b: BlockV| s.contains(b) && b.origin == o && b.clock == c
}

/// A map of clocks describes exactly the ids of a set of blocks, each id once.
pub open spec fn consistent(m: Map<u64, u64>, s: Set<BlockV>) -> bool {
    &&& forall|b: BlockV| s.contains(b) ==> b.clock < at(m, b.origin)
    &&& forall|b1: BlockV, b2: BlockV|
        s.contains(b1) && s.contains(b2) && b1.origin == b2.origin && b1.clock == b2.clock
            ==> b1 == b2
    &&& forall|o: u64, c: u64| c < at(m, o) ==> #[trigger] has_id(s, o, c)
}

/// Integration of a list of blocks from clocks `m`: the clocks after, the
/// blocks applied and how many, or `None` on a causal gap.
pub open spec fn run(m: Map<u64, u64>, u: Seq<BlockV>) -> Option<(Map<u64, u64>, Set<BlockV>, nat)>
    decreases u.len(),
{
    if u.len() == 0 {
        Some((m, Set::empty(), 0))
    } else {
        let b = u[0];
        if b.clock < at(m, b.origin) {
            run(m, u.drop_first())
        } else if b.clock > at(m, b.origin) || b.clock == u64::MAX {
            None
        } else {
            match run(m.insert(b.origin, (b.clock + 1) as u64), u.drop_first()) {
                Some((m2, a, n)) => Some((m2, a.insert(b), n + 1)),
                None => None,
            }
        }
    }
}

/// The clocks after a successful integration.
pub open spec fn clocks_of(r: Option<(Map<u64, u64>, Set<BlockV>, nat)>) -> Map<u64, u64> {
    match r {
        Some((m, _, _)) => m,
        None => Map::empty(),
    }
}

/// The blocks applied by a successful integration.
pub open spec fn added_of(r: Option<(Map<u64, u64>, Set<BlockV>, nat)>) -> Set<BlockV> {
    match r {
        Some((_, a, _)) => a,
        None => Set::empty(),
    }
}

/// `r` with `a` also applied and `n` more counted.
pub open spec fn extend(
    r: Option<(Map<u64, u64>, Set<BlockV>, nat)>,
    a: Set<BlockV>,
    n: nat,
) -> Option<(Map<u64, u64>, Set<BlockV>, nat)> {
    match r {
        Some((m, s, k)) => Some((m, s.union(a), k + n)),
        None => None,
    }
}

/// `b` is the winning write on its key in `s`.
pub open spec fn wins(s: Set<BlockV>, b: BlockV) -> bool {
    s.contains(b) && forall|c: BlockV| #[trigger] s.contains(c) && c.key == b.key ==> !precedes(b, c)
}

/// The winning write on key `k`.
pub open spec fn winner(s: Set<BlockV>, k: Seq<char>) -> BlockV {
    choose|b: BlockV| wins(s, b) && b.key == k
}

/// The visible value of each key: that of its winning write, unless that
/// write is a deletion.
pub open spec fn visible(s: Set<BlockV>) -> Map<Seq<char>, PayloadV> {
    Map::new(
        |k: Seq<char>| has_key(s, k) && !(winner(s, k).payload is Tombstone),
        |k: Seq<char>| winner(s, k).payload,
    )
}

/// Some block of `s` writes key `k`.
pub open spec fn has_key(s: Set<BlockV>, k: Seq<char>) -> bool {
    exists|b: BlockV| s.contains(b) && b.key == k
}

proof fn lemma_apply_consistent(m: Map<u64, u64>, s: Set<BlockV>, b: BlockV)
    requires
        consistent(m, s),
        b.clock == at(m, b.origin),
        b.clock < u64::MAX,
    ensures
        consistent(m.insert(b.origin, (b.clock + 1) as u64), s.insert(b)),
{
    let m1 = m.insert(b.origin, (b.clock + 1) as u64);
    let s1 = s.insert(b);
    assert forall|o: u64, c: u64| c < at(m1, o) implies #[trigger] has_id(s1, o, c) by {
        if o != b.origin || c < b.clock {
            assert(has_id(s, o, c));
            let w = choose|w: BlockV| s.contains(w) && w.origin == o && w.clock == c;
            assert(s1.contains(w));
        } else {
            assert(s1.contains(b));
        }
    }
    assert forall|x: BlockV| s1.contains(x) implies x.clock < at(m1, x.origin) by {
        if x != b {
            assert(s.contains(x));
        }
    }
}

/// Integration keeps clocks and blocks consistent, never moves a clock back,
/// and leaves every block of the update below its replica's clock.
pub proof fn lemma_run_consistent(m: Map<u64, u64>, s: Set<BlockV>, u: Seq<BlockV>)
    requires
        consistent(m, s),
        run(m, u) is Some,
    ensures
        consistent(clocks_of(run(m, u)), s.union(added_of(run(m, u)))),
        forall|r: u64| at(m, r) <= #[trigger] at(clocks_of(run(m, u)), r),
        forall|k: int| 0 <= k < u.len() ==> u[k].clock < at(clocks_of(run(m, u)), u[k].origin),
    decreases u.len(),
{
    if u.len() > 0 {
        let b = u[0];
        let rest = u.drop_first();
        if b.clock < at(m, b.origin) {
            lemma_run_consistent(m, s, rest);
            assert forall|k: int| 0 <= k < u.len() implies u[k].clock < at(clocks_of(run(m, u)), u[k].origin) by {
                if k > 0 {
                    assert(u[k] == rest[k - 1]);
                }
            }
        } else {
            let m1 = m.insert(b.origin, (b.clock + 1) as u64);
            lemma_apply_consistent(m, s, b);
            lemma_run_consistent(m1, s.insert(b), rest);
            let (m2, a, n) = run(m1, rest)->0;
            assert(s.insert(b).union(a) =~= s.union(a.insert(b)));
            assert forall|r: u64| at(m, r) <= #[trigger] at(m2, r) by {
                assert(at(m, r) <= at(m1, r));
            }
            assert forall|k: int| 0 <= k < u.len() implies u[k].clock < at(m2, u[k].origin) by {
                if k > 0 {
                    assert(u[k] == rest[k - 1]);
                } else {
                    assert(at(m1, b.origin) <= at(m2, b.origin));
                }
            }
        }
    } else {
        assert(s.union(Set::<BlockV>::empty()) =~= s);
    }
}

proof fn lemma_block_set_push(bs: Seq<Block>, b: Block)
    ensures
        block_set(bs.push(b)) == block_set(bs).insert(b@),
{
    let t = bs.push(b);
    assert forall|v: BlockV| block_set(t).contains(v) == block_set(bs).insert(b@).contains(v) by {
        if block_set(bs).contains(v) {
            let i = choose|i: int| 0 <= i < bs.len() && bs[i]@ == v;
            assert(t[i]@ == v);
        }
        if v == b@ {
            assert(t[bs.len() as int]@ == v);
        }
        if block_set(t).contains(v) && v != b@ {
            let i = choose|i: int| 0 <= i < t.len() && t[i]@ == v;
            assert(bs[i]@ == v);
        }
    }
    assert(block_set(t) =~= block_set(bs).insert(b@));
}

proof fn lemma_block_set_concat(x: Seq<Block>, y: Seq<Block>)
    ensures
        block_set(x + y) == block_set(x).union(block_set(y)),
{
    let t = x + y;
    assert forall|v: BlockV| block_set(t).contains(v) == block_set(x).union(block_set(y)).contains(v) by {
        if block_set(x).contains(v) {
            let i = choose|i: int| 0 <= i < x.len() && x[i]@ == v;
            assert(t[i]@ == v);
        }
        if block_set(y).contains(v) {
            let i = choose|i: int| 0 <= i < y.len() && y[i]@ == v;
            assert(t[x.len() + i]@ == v);
        }
        if block_set(t).contains(v) {
            let i = choose|i: int| 0 <= i < t.len() && t[i]@ == v;
            if i < x.len() {
                assert(x[i]@ == v);
            } else {
                assert(y[i - x.len()]@ == v);
            }
        }
    }
    assert(block_set(t) =~= block_set(x).union(block_set(y)));
}

/// Blocks grouped by replica id ascending, clocks contiguous within a group.
pub open spec fn canonical(s: Seq<BlockV>) -> bool {
    forall|i: int|
        0 <= i < s.len() - 1 ==> ((#[trigger] s[i]).origin < s[i + 1].origin || (s[i].origin
            == s[i + 1].origin && s[i + 1].clock == s[i].clock + 1))
}

/// The blocks of `s` that clocks `their` have not yet seen.
pub open spec fn missing(s: Set<BlockV>, their: Map<u64, u64>) -> Set<BlockV> {
    s.filter(|b: BlockV| b.clock >= at(their, b.origin))
}

/// Replica `o` has an entry among the first `j` of `s`.
pub open spec fn in_prefix(s: Seq<(u64, u64)>, j: int, o: u64) -> bool {
    exists|k: int| 0 <= k < j && s[k].0 == o
}

/// The map that a list of key/value entries describes.
pub open spec fn entries_map(e: Seq<(String, Payload)>) -> Map<Seq<char>, PayloadV> {
    Map::new(
        |k: Seq<char>| exists|i: int| 0 <= i < e.len() && e[i].0@ == k,
        |k: Seq<char>| e[choose|i: int| 0 <= i < e.len() && e[i].0@ == k].1@,
    )
}

/// No key occurs twice in a list of entries.
pub open spec fn unique_keys(e: Seq<(String, Payload)>) -> bool {
    forall|i: int, j: int| 0 <= i < e.len() && 0 <= j < e.len() && i != j ==> e[i].0@ != e[j].0@
}

/// In a consistent set, a key has at most one winning write.
pub proof fn lemma_winner_unique(m: Map<u64, u64>, s: Set<BlockV>, x: BlockV, y: BlockV)
    requires
        consistent(m, s),
        wins(s, x),
        wins(s, y),
        x.key == y.key,
    ensures
        x == y,
{
    assert(s.contains(y) && y.key == x.key);
    assert(s.contains(x) && x.key == y.key);
}

/// A replica's document: its clocks and every block it has applied.
#[derive(Debug)]
pub struct Store {
    pub replica: u64,
    pub sv: StateVector,
    pub blocks: Vec<Block>,
}

impl Store {
    /// The blocks held, as a set of values.
    pub open spec fn contents(&self) -> Set<BlockV> {
        block_set(self.blocks@)
    }

    pub open spec fn wf(&self) -> bool {
        self.sv.wf() && consistent(self.sv@, self.contents())
    }

    /// An empty store for replica `replica`.
    pub fn new(replica: u64) -> (r: Store)
        ensures
            r.wf(),
            r.replica == replica,
            r.sv@ == Map::<u64, u64>::empty(),
            r.contents() == Set::<BlockV>::empty(),
    {
        let r = Store { replica, sv: StateVector::new(), blocks: Vec::new() };
        assert(r.contents() =~= Set::<BlockV>::empty());
        r
    }

    /// Writes `value` to `key` as this replica's next block.
    pub fn set(&mut self, key: String, value: Payload)
        requires
            old(self).wf(),
            at(old(self).sv@, old(self).replica) < u64::MAX,
        ensures
            final(self).wf(),
            final(self).replica == old(self).replica,
            final(self).sv@ == old(self).sv@.insert(
                old(self).replica,
                (at(old(self).sv@, old(self).replica) + 1) as u64,
            ),
            final(self).contents() == old(self).contents().insert(
                BlockV {
                    origin: old(self).replica,
                    clock: at(old(self).sv@, old(self).replica),
                    key: key@,
                    payload: value@,
                },
            ),
    {
        let c = self.sv.get(self.replica);
        let b = Block::new(self.replica, c, key, value);
        let u = Update { blocks: vec![b], sv: StateVector::new() };
        let ghost ub = views(u.blocks@);
        assert(ub.drop_first() =~= Seq::<BlockV>::empty());
        let ghost m1 = self.sv@.insert(self.replica, (c + 1) as u64);
        assert(run(m1, ub.drop_first()) == Some((m1, Set::<BlockV>::empty(), 0nat)));
        assert(Set::<BlockV>::empty().insert(ub[0]) =~= set![ub[0]]);
        let _ = self.integrate(&u);
        assert(self.contents() =~= old(self).contents().insert(ub[0]));
    }

    /// Deletes `key` by a tombstone block of this replica.
    pub fn delete(&mut self, key: String)
        requires
            old(self).wf(),
            at(old(self).sv@, old(self).replica) < u64::MAX,
        ensures
            final(self).wf(),
            final(self).replica == old(self).replica,
            final(self).sv@ == old(self).sv@.insert(
                old(self).replica,
                (at(old(self).sv@, old(self).replica) + 1) as u64,
            ),
            final(self).contents() == old(self).contents().insert(
                BlockV {
                    origin: old(self).replica,
                    clock: at(old(self).sv@, old(self).replica),
                    key: key@,
                    payload: PayloadV::Tombstone,
                },
            ),
    {
        self.set(key, Payload::Tombstone);
    }

    /// A copy of this store's state vector.
    pub fn current_state_vector(&self) -> (r: StateVector)
        ensures
            r.entries@ == self.sv.entries@,
            r@ == self.sv@,
    {
        self.sv.copy()
    }

    /// The index of the block with id (`o`, `c`).
    fn find(&self, o: u64, c: u64) -> (r: usize)
        requires
            has_id(self.contents(), o, c),
        ensures
            r < self.blocks@.len(),
            self.blocks@[r as int].origin == o,
            self.blocks@[r as int].clock == c,
    {
        let ghost w = choose|w: BlockV| self.contents().contains(w) && w.origin == o && w.clock == c;
        let ghost wi = choose|i: int| 0 <= i < self.blocks@.len() && self.blocks@[i]@ == w;
        let mut i: usize = 0;
        while i < self.blocks.len()
            invariant
                0 <= i <= self.blocks@.len(),
                0 <= wi < self.blocks@.len(),
                self.blocks@[wi].origin == o && self.blocks@[wi].clock == c,
                forall|k: int| 0 <= k < i ==> !(self.blocks@[k].origin == o && self.blocks@[k].clock == c),
            decreases self.blocks@.len() - i,
        {
            if self.blocks[i].origin == o && self.blocks[i].clock == c {
                return i;
            }
            i = i + 1;
        }
        i
    }

    /// The blocks of this store that clocks `their` have not seen, by replica
    /// and clock, with this store's full state vector.
    pub fn diff(&self, their: &StateVector) -> (r: Update)
        requires
            self.wf(),
            their.wf(),
        ensures
            r.sv.entries@ == self.sv.entries@,
            block_set(r.blocks@) == missing(self.contents(), their@),
            canonical(views(r.blocks@)),
    {
        let ghost es = self.sv.entries@;
        let ghost full = self.contents();
        let mut out: Vec<Block> = Vec::new();
        let mut j: usize = 0;
        assert(block_set(out@) =~= Set::<BlockV>::empty());
        assert(missing(full, their@).filter(|b: BlockV| in_prefix(es, 0, b.origin)) =~= Set::<BlockV>::empty());
        while j < self.sv.entries.len()
            invariant
                self.wf(),
                their.wf(),
                es == self.sv.entries@,
                full == self.contents(),
                0 <= j <= es.len(),
                block_set(out@) == missing(full, their@).filter(|b: BlockV| in_prefix(es, j as int, b.origin)),
                canonical(views(out@)),
                out@.len() > 0 && j > 0 ==> out@.last().origin <= es[j - 1].0,
                out@.len() > 0 ==> j > 0,
            decreases es.len() - j,
        {
            let (o, n) = self.sv.entries[j];
            proof {
                crate::state_vector::lemma_map_of_entry(es, j as int);
            }
            let mut c = their.get(o);
            let ghost out0 = out@;
            let ghost c0 = c;
            while c < n
                invariant
                    self.wf(),
                    their.wf(),
                    es == self.sv.entries@,
                    full == self.contents(),
                    0 <= j < es.len(),
                    out0.len() > 0 ==> (j > 0 && out0.last().origin <= es[j - 1].0),
                    out@.len() >= out0.len(),
                    es[j as int] == (o, n),
                    at(self.sv@, o) == n,
                    c0 == at(their@, o),
                    c0 <= n ==> c0 <= c <= n,
                    c0 > n ==> c == c0,
                    block_set(out@) == block_set(out0).union(
                        full.filter(|b: BlockV| b.origin == o && c0 <= b.clock < c),
                    ),
                    canonical(views(out@)),
                    out@.len() > out0.len() ==> out@.last().origin == o && out@.last().clock + 1 == c,
                    out@.len() == out0.len() ==> out@ == out0,
                    c > c0 ==> out@.len() > out0.len(),
                decreases n - c,
            {
                proof {
                    assert(has_id(full, o, c));
                }
                let k = self.find(o, c);
                let ghost before = out@;
                out.push(self.blocks[k].copy());
                proof {
                    lemma_block_set_push(before, out@.last());
                    assert(out@ == before.push(out@.last()));
                    let b = self.blocks@[k as int]@;
                    assert(full.contains(b)) by {
                        assert(self.blocks@[k as int]@ == b);
                    }
                    assert(block_set(out@) =~= block_set(out0).union(
                        full.filter(|x: BlockV| x.origin == o && c0 <= x.clock < c + 1),
                    )) by {
                        assert forall|x: BlockV| full.contains(x) && x.origin == o && x.clock == c implies x == b by {
                        }
                    }
                    assert(canonical(views(out@))) by {
                        let vs = views(out@);
                        assert forall|i: int| 0 <= i < vs.len() - 1 implies ((#[trigger] vs[i]).origin < vs[i + 1].origin || (vs[i].origin
                            == vs[i + 1].origin && vs[i + 1].clock == vs[i].clock + 1)) by {
                            if i == vs.len() - 2 {
                                assert(vs[i] == before.last()@);
                                if before.len() == out0.len() {
                                    assert(j > 0);
                                    assert(es[j - 1].0 < es[j as int].0);
                                }
                            } else {
                                assert(vs[i] == views(before)[i] && vs[i + 1] == views(before)[i + 1]);
                            }
                        }
                    }
                }
                c = c + 1;
            }
            proof {
                if out@.len() > 0 && out@ == out0 {
                    assert(es[j - 1].0 < es[j as int].0);
                }
                let lo = missing(full, their@).filter(|b: BlockV| in_prefix(es, j as int, b.origin));
                let hi = missing(full, their@).filter(|b: BlockV| in_prefix(es, j + 1, b.origin));
                let mid = full.filter(|b: BlockV| b.origin == o && c0 <= b.clock < c);
                assert forall|x: BlockV| hi.contains(x) == lo.union(mid).contains(x) by {
                    if hi.contains(x) {
                        let k = choose|k: int| 0 <= k < j + 1 && es[k].0 == x.origin;
                        if k < j {
                            assert(lo.contains(x));
                        } else {
                            assert(x.clock < at(self.sv@, o));
                        }
                    }
                    if lo.contains(x) {
                        let k = choose|k: int| 0 <= k < j && es[k].0 == x.origin;
                        assert(in_prefix(es, j + 1, x.origin));
                    }
                    if mid.contains(x) {
                        assert(in_prefix(es, j + 1, x.origin));
                    }
                }
                assert(hi =~= lo.union(mid));
            }
            j = j + 1;
        }
        proof {
            assert forall|x: BlockV| missing(full, their@).contains(x) implies in_prefix(es, j as int, x.origin) by {
                assert(x.clock < at(self.sv@, x.origin));
                assert(self.sv@.contains_key(x.origin));
            }
            assert(missing(full, their@).filter(|b: BlockV| in_prefix(es, j as int, b.origin)) =~= missing(full, their@));
        }
        Update { blocks: out, sv: self.sv.copy() }
    }

    /// The visible value of each key: the payload of its winning write, keys
    /// whose winner is a deletion left out.
    pub fn project(&self) -> (r: Vec<(String, Payload)>)
        requires
            self.wf(),
        ensures
            unique_keys(r@),
            entries_map(r@) == visible(self.contents()),
    {
        let ghost bs = self.blocks@;
        let mut w: Vec<usize> = Vec::new();
        let mut i: usize = 0;
        while i < self.blocks.len()
            invariant
                bs == self.blocks@,
                0 <= i <= bs.len(),
                forall|j: int| 0 <= j < w@.len() ==> w@[j] < i,
                forall|j: int| 0 <= j < w@.len() ==> wins(block_set(bs.subrange(0, i as int)), bs[w@[j] as int]@),
                forall|j1: int, j2: int|
                    0 <= j1 < w@.len() && 0 <= j2 < w@.len() && j1 != j2 ==> bs[w@[j1] as int].key@ != bs[w@[j2] as int].key@,
                forall|k: int| 0 <= k < i ==> exists|j: int| 0 <= j < w@.len() && bs[w@[j] as int].key@ == #[trigger] bs[k].key@,
            decreases bs.len() - i,
        {
            let ghost pre = bs.subrange(0, i as int);
            let ghost post = bs.subrange(0, i + 1);
            proof {
                assert(post == pre.push(bs[i as int]));
                lemma_block_set_push(pre, bs[i as int]);
            }
            let mut j: usize = 0;
            while j < w.len() && !(self.blocks[w[j]].key == self.blocks[i].key)
                invariant
                    bs == self.blocks@,
                    0 <= i < bs.len(),
                    0 <= j <= w@.len(),
                    forall|q: int| 0 <= q < w@.len() ==> w@[q] < i,
                    forall|q: int| 0 <= q < j ==> bs[w@[q] as int].key@ != bs[i as int].key@,
                decreases w@.len() - j,
            {
                j = j + 1;
            }
            let ghost w0 = w@;
            if j < w.len() {
                if self.blocks[w[j]].precedes(&self.blocks[i]) {
                    w.set(j, i);
                }
            } else {
                w.push(i);
            }
            proof {
                let bi = bs[i as int]@;
                assert forall|q: int| 0 <= q < w@.len() implies wins(block_set(post), bs[w@[q] as int]@) by {
                    let x = bs[w@[q] as int]@;
                    if q < w0.len() && w@[q] == w0[q] {
                        assert(wins(block_set(pre), x));
                        assert forall|c: BlockV| #[trigger] block_set(post).contains(c) && c.key == x.key implies !precedes(x, c) by {
                            if c != bi {
                                assert(block_set(pre).contains(c));
                            }
                        }
                        assert(block_set(post).contains(x)) by {
                            assert(post[w@[q] as int] == bs[w@[q] as int]);
                        }
                    } else if q < w0.len() {
                        let old_w = bs[w0[q] as int]@;
                        assert(wins(block_set(pre), old_w));
                        assert forall|c: BlockV| #[trigger] block_set(post).contains(c) && c.key == x.key implies !precedes(x, c) by {
                            if c != bi {
                                assert(block_set(pre).contains(c));
                                assert(!precedes(old_w, c));
                            }
                        }
                    } else {
                        assert forall|c: BlockV| #[trigger] block_set(post).contains(c) && c.key == x.key implies !precedes(x, c) by {
                            if c != bi {
                                assert(block_set(pre).contains(c));
                                let k = choose|k: int| 0 <= k < pre.len() && pre[k]@ == c;
                                assert(bs[k]@ == c);
                                let jj = choose|jj: int| 0 <= jj < w0.len() && bs[w0[jj] as int].key@ == bs[k].key@;
                                assert(bs[w@[jj] as int].key@ == bs[w0[jj] as int].key@);
                            }
                        }
                    }
                }
                assert forall|k: int| 0 <= k < i + 1 implies exists|q: int| 0 <= q < w@.len() && bs[w@[q] as int].key@ == #[trigger] bs[k].key@ by {
                    if k < i {
                        let q = choose|q: int| 0 <= q < w0.len() && bs[w0[q] as int].key@ == bs[k].key@;
                        assert(bs[w@[q] as int].key@ == bs[w0[q] as int].key@);
                    } else {
                        assert(bs[w@[j as int] as int].key@ == bs[k].key@);
                    }
                }
            }
            i = i + 1;
        }
        assert(bs.subrange(0, bs.len() as int) =~= bs);
        let ghost full = self.contents();
        let mut out: Vec<(String, Payload)> = Vec::new();
        let mut t: usize = 0;
        let ghost mut src: Seq<int> = Seq::empty();
        while t < w.len()
            invariant
                bs == self.blocks@,
                i == bs.len(),
                full == block_set(bs),
                0 <= t <= w@.len(),
                forall|j: int| 0 <= j < w@.len() ==> w@[j] < i,
                forall|j: int| 0 <= j < w@.len() ==> wins(full, bs[w@[j] as int]@),
                forall|j1: int, j2: int|
                    0 <= j1 < w@.len() && 0 <= j2 < w@.len() && j1 != j2 ==> bs[w@[j1] as int].key@ != bs[w@[j2] as int].key@,
                unique_keys(out@),
                src.len() == out@.len(),
                forall|p: int| 0 <= p < out@.len() ==> 0 <= #[trigger] src[p] < t && out@[p].0@ == bs[w@[src[p]] as int].key@
                    && out@[p].1@ == bs[w@[src[p]] as int].payload@ && !(bs[w@[src[p]] as int].payload@ is Tombstone),
                forall|j: int| 0 <= j < t && !(bs[w@[j] as int].payload@ is Tombstone) ==> exists|p: int| 0 <= p < out@.len()
                    && #[trigger] out@[p].0@ == bs[w@[j] as int].key@,
            decreases w@.len() - t,
        {
            let b = &self.blocks[w[t]];
            let ghost o0 = out@;
            if !b.payload.is_tombstone() {
                out.push((b.key.clone(), b.payload.copy()));
                proof {
                    assert forall|p: int| 0 <= p < o0.len() implies out@[p] == o0[p] by {}
                    assert forall|p: int| 0 <= p < o0.len() implies o0[p].0@ != b.key@ by {
                        assert(src[p] != t);
                    }
                    src = src.push(t as int);
                    assert(out@[o0.len() as int].1@ == bs[w@[t as int] as int].payload@);
                }
            }
            proof {
                assert forall|p: int| 0 <= p < out@.len() implies 0 <= #[trigger] src[p] < t + 1 && out@[p].0@ == bs[w@[src[p]] as int].key@
                    && out@[p].1@ == bs[w@[src[p]] as int].payload@ && !(bs[w@[src[p]] as int].payload@ is Tombstone) by {
                    if p < o0.len() {
                        assert(out@[p] == o0[p]);
                    }
                }
                assert forall|j: int| 0 <= j < t + 1 && !(bs[w@[j] as int].payload@ is Tombstone) implies exists|p: int| 0 <= p < out@.len()
                    && #[trigger] out@[p].0@ == bs[w@[j] as int].key@ by {
                    if j < t {
                        let p = choose|p: int| 0 <= p < o0.len() && #[trigger] o0[p].0@ == bs[w@[j] as int].key@;
                        assert(out@[p] == o0[p]);
                    } else {
                        assert(out@[o0.len() as int].0@ == bs[w@[j] as int].key@);
                    }
                }
            }
            t = t + 1;
        }
        proof {
            let v = visible(full);
            let e = entries_map(out@);
            assert forall|k: Seq<char>| e.contains_key(k) == v.contains_key(k) by {
                if e.contains_key(k) {
                    let p = choose|p: int| 0 <= p < out@.len() && out@[p].0@ == k;
                    let j = src[p];
                    let x = bs[w@[j] as int]@;
                    assert(has_key(full, k));
                    assert(wins(full, x) && x.key == k);
                    lemma_winner_unique(self.sv@, full, winner(full, k), x);
                }
                if v.contains_key(k) {
                    let y = choose|y: BlockV| full.contains(y) && y.key == k;
                    let kk = choose|kk: int| 0 <= kk < bs.len() && bs[kk]@ == y;
                    let j = choose|j: int| 0 <= j < w@.len() && bs[w@[j] as int].key@ == bs[kk].key@;
                    let x = bs[w@[j] as int]@;
                    assert(wins(full, x) && x.key == k);
                    lemma_winner_unique(self.sv@, full, winner(full, k), x);
                    assert(exists|p: int| 0 <= p < out@.len() && #[trigger] out@[p].0@ == bs[w@[j] as int].key@);
                }
            }
            assert forall|k: Seq<char>| e.contains_key(k) implies e[k] == v[k] by {
                let p = choose|p: int| 0 <= p < out@.len() && out@[p].0@ == k;
                let j = src[p];
                let x = bs[w@[j] as int]@;
                assert(has_key(full, k));
                lemma_winner_unique(self.sv@, full, winner(full, k), x);
            }
            assert(e =~= v);
        }
        out
    }

    /// The store's full history as update bytes: every block it holds, by
    /// replica and clock, with its state vector.
    pub fn snapshot(&self) -> (r: Vec<u8>)
        requires
            self.wf(),
        ensures
            exists|bs: Seq<BlockV>|
                #![trigger crate::codec::enc_update(bs, self.sv.entries@)]
                canonical(bs) && bs.to_set() == self.contents() && r@ == crate::codec::enc_update(bs, self.sv.entries@),
    {
        let empty = StateVector::new();
        let u = self.diff(&empty);
        proof {
            let vs = views(u.blocks@);
            assert(missing(self.contents(), empty@) =~= self.contents());
            assert forall|x: BlockV| vs.to_set().contains(x) == self.contents().contains(x) by {
                if vs.contains(x) {
                    let i = choose|i: int| 0 <= i < vs.len() && vs[i] == x;
                    assert(u.blocks@[i]@ == x);
                    assert(block_set(u.blocks@).contains(x));
                }
                if self.contents().contains(x) {
                    assert(block_set(u.blocks@).contains(x));
                    let i = choose|i: int| 0 <= i < u.blocks@.len() && u.blocks@[i]@ == x;
                    assert(vs[i] == x);
                }
            }
            assert(vs.to_set() =~= self.contents());
        }
        crate::codec::encode(&u.blocks, &u.sv)
    }

    /// Applies the blocks of `u` that this store lacks, all or nothing. A
    /// block ahead of its replica's clock, or one at the last clock value,
    /// which no later block could follow, is a causal gap.
    pub fn integrate(&mut self, u: &Update) -> (r: Result<usize, SyncError>)
        requires
            old(self).wf(),
        ensures
            final(self).wf(),
            final(self).replica == old(self).replica,
            match run(old(self).sv@, views(u.blocks@)) {
                Some((m, a, n)) => r == Ok::<usize, SyncError>(n as usize) && final(self).sv@ == m
                    && final(self).contents() == old(self).contents().union(a),
                None => r matches Err(SyncError::CausalGap) && *final(self) == *old(self),
            },
    {
        let ghost ub = views(u.blocks@);
        let ghost m0 = self.sv@;
        let mut sim = self.sv.copy();
        let mut pending: Vec<Block> = Vec::new();
        let mut n: usize = 0;
        let mut i: usize = 0;
        assert(ub.subrange(0, ub.len() as int) =~= ub);
        assert(block_set(pending@) =~= Set::<BlockV>::empty());
        while i < u.blocks.len()
            invariant
                ub == views(u.blocks@),
                *self == *old(self),
                self.wf(),
                m0 == old(self).sv@,
                0 <= n <= i <= u.blocks@.len(),
                sim.wf(),
                run(m0, ub) == extend(run(sim@, ub.subrange(i as int, ub.len() as int)), block_set(pending@), n as nat),
            decreases u.blocks@.len() - i,
        {
            let b = &u.blocks[i];
            let ghost rest = ub.subrange(i as int, ub.len() as int);
            assert(rest[0] == b@);
            assert(rest.drop_first() =~= ub.subrange(i + 1, ub.len() as int));
            let c = sim.get(b.origin);
            if b.clock > c || b.clock == u64::MAX {
                return Err(SyncError::CausalGap);
            }
            if b.clock == c {
                let ghost p0 = pending@;
                let ghost r1 = run(sim@.insert(b.origin, (b.clock + 1) as u64), ub.subrange(i + 1, ub.len() as int));
                sim.advance(b.origin);
                pending.push(b.copy());
                n = n + 1;
                proof {
                    lemma_block_set_push(p0, pending@.last());
                    assert(pending@ == p0.push(pending@.last()));
                    if r1 is Some {
                        let (m2, a, k) = r1->0;
                        assert(a.insert(b@).union(block_set(p0)) =~= a.union(block_set(pending@)));
                    }
                }
            }
            i = i + 1;
        }
        assert(ub.subrange(i as int, ub.len() as int) =~= Seq::<BlockV>::empty());
        assert(Set::<BlockV>::empty().union(block_set(pending@)) =~= block_set(pending@));
        proof {
            lemma_run_consistent(m0, self.contents(), ub);
            lemma_block_set_concat(self.blocks@, pending@);
        }
        self.sv = sim;
        self.blocks.append(&mut pending);
        Ok(n)
    }
}

} // verus!
