use vstd::prelude::*;

verus! {

/// What a write sets a key to.
#[derive(Debug, PartialEq, Eq)]
pub enum Payload {
    Bool(bool),
    Int(i64),
    Text(String),
    /// A sequence of values.
    List(Vec<Payload>),
    /// Named values, in order of insertion.
    Record(Vec<(String, Payload)>),
    /// The key is deleted as of this write.
    Tombstone,
}

/// The mathematical value of a payload.
pub enum PayloadV {
    Bool(bool),
    Int(i64),
    Text(Seq<char>),
    List(Seq<PayloadV>),
    Record(Seq<(Seq<char>, PayloadV)>),
    Tombstone,
}

/// The mathematical value of a payload, nested values included.
pub open spec fn pview(p: Payload) -> PayloadV
    decreases p,
{
    match p {
        Payload::Bool(b) => PayloadV::Bool(b),
        Payload::Int(i) => PayloadV::Int(i),
        Payload::Text(s) => PayloadV::Text(s@),
        Payload::List(v) => PayloadV::List(
            Seq::new(v@.len(), |i: int| if 0 <= i < v@.len() { pview(v@[i]) } else { PayloadV::Tombstone }),
        ),
        Payload::Record(v) => PayloadV::Record(
            Seq::new(
                v@.len(),
                |i: int|
                    if 0 <= i < v@.len() {
                        (v@[i].0@, pview(v@[i].1))
                    } else {
                        (Seq::empty(), PayloadV::Tombstone)
                    },
            ),
        ),
        Payload::Tombstone => PayloadV::Tombstone,
    }
}

impl View for Payload {
    type V = PayloadV;

    open spec fn view(&self) -> PayloadV {
        pview(*self)
    }
}

impl Payload {
    pub fn copy(&self) -> (r: Payload)
        ensures
            r@ == self@,
        decreases self,
    {
        match self {
            Payload::Bool(b) => Payload::Bool(*b),
            Payload::Int(i) => Payload::Int(*i),
            Payload::Text(s) => Payload::Text(s.clone()),
            Payload::List(v) => {
                let mut out: Vec<Payload> = Vec::new();
                let mut i: usize = 0;
                while i < v.len()
                    invariant
                        *self == Payload::List(*v),
                        0 <= i <= v@.len(),
                        out@.len() == i,
                        forall|j: int| 0 <= j < i ==> out@[j]@ == v@[j]@,
                    decreases v@.len() - i,
                {
                    proof {
                        let me = *self;
                        let vv = *v;
                        assert(decreases_to!(me => me->List_0));
                        assert(decreases_to!(vv => vv@));
                        assert(decreases_to!(vv@ => vv@[i as int]));
                    }
                    out.push(v[i].copy());
                    i = i + 1;
                }
                let r = Payload::List(out);
                assert(r@->List_0 =~= self@->List_0);
                r
            },
            Payload::Record(v) => {
                let mut out: Vec<(String, Payload)> = Vec::new();
                let mut i: usize = 0;
                while i < v.len()
                    invariant
                        *self == Payload::Record(*v),
                        0 <= i <= v@.len(),
                        out@.len() == i,
                        forall|j: int| 0 <= j < i ==> out@[j].0@ == v@[j].0@ && out@[j].1@ == v@[j].1@,
                    decreases v@.len() - i,
                {
                    proof {
                        let me = *self;
                        let vv = *v;
                        assert(decreases_to!(me => me->Record_0));
                        assert(decreases_to!(vv => vv@));
                        assert(decreases_to!(vv@ => vv@[i as int]));
                        assert(decreases_to!(vv@[i as int] => vv@[i as int].1));
                    }
                    out.push((v[i].0.clone(), v[i].1.copy()));
                    i = i + 1;
                }
                let r = Payload::Record(out);
                assert(r@->Record_0 =~= self@->Record_0);
                r
            },
            Payload::Tombstone => Payload::Tombstone,
        }
    }

    pub fn is_tombstone(&self) -> (r: bool)
        ensures
            r == (self@ is Tombstone),
    {
        match self {
            Payload::Tombstone => true,
            _ => false,
        }
    }

    pub fn equals(&self, o: &Payload) -> (r: bool)
        ensures
            r == (self@ == o@),
        decreases self,
    {
        match self {
            Payload::Bool(a) => match o {
                Payload::Bool(b) => *a == *b,
                _ => false,
            },
            Payload::Int(a) => match o {
                Payload::Int(b) => *a == *b,
                _ => false,
            },
            Payload::Text(a) => match o {
                Payload::Text(b) => a.eq(b),
                _ => false,
            },
            Payload::List(a) => match o {
                Payload::List(b) => {
                    if a.len() != b.len() {
                        assert(self@->List_0.len() != o@->List_0.len());
                        return false;
                    }
                    let mut i: usize = 0;
                    while i < a.len()
                        invariant
                            *self == Payload::List(*a),
                            *o == Payload::List(*b),
                            a@.len() == b@.len(),
                            0 <= i <= a@.len(),
                            forall|j: int| 0 <= j < i ==> a@[j]@ == b@[j]@,
                        decreases a@.len() - i,
                    {
                        proof {
                            let me = *self;
                            let vv = *a;
                            assert(decreases_to!(me => me->List_0));
                            assert(decreases_to!(vv => vv@));
                            assert(decreases_to!(vv@ => vv@[i as int]));
                        }
                        if !a[i].equals(&b[i]) {
                            assert(self@->List_0[i as int] != o@->List_0[i as int]);
                            return false;
                        }
                        i = i + 1;
                    }
                    assert(self@->List_0 =~= o@->List_0);
                    true
                },
                _ => false,
            },
            Payload::Record(a) => match o {
                Payload::Record(b) => {
                    if a.len() != b.len() {
                        assert(self@->Record_0.len() != o@->Record_0.len());
                        return false;
                    }
                    let mut i: usize = 0;
                    while i < a.len()
                        invariant
                            *self == Payload::Record(*a),
                            *o == Payload::Record(*b),
                            a@.len() == b@.len(),
                            0 <= i <= a@.len(),
                            forall|j: int| 0 <= j < i ==> a@[j].0@ == b@[j].0@ && a@[j].1@ == b@[j].1@,
                        decreases a@.len() - i,
                    {
                        proof {
                            let me = *self;
                            let vv = *a;
                            assert(decreases_to!(me => me->Record_0));
                            assert(decreases_to!(vv => vv@));
                            assert(decreases_to!(vv@ => vv@[i as int]));
                            assert(decreases_to!(vv@[i as int] => vv@[i as int].1));
                        }
                        if !(a[i].0 == b[i].0) || !a[i].1.equals(&b[i].1) {
                            assert(self@->Record_0[i as int] != o@->Record_0[i as int]);
                            return false;
                        }
                        i = i + 1;
                    }
                    assert(self@->Record_0 =~= o@->Record_0);
                    true
                },
                _ => false,
            },
            Payload::Tombstone => o.is_tombstone(),
        }
    }
}

/// One write: replica `origin` at `clock` sets `key` to `payload`.
#[derive(Debug)]
pub struct Block {
    pub origin: u64,
    pub clock: u64,
    pub key: String,
    pub payload: Payload,
}

/// The mathematical value of a block.
pub struct BlockV {
    pub origin: u64,
    pub clock: u64,
    pub key: Seq<char>,
    pub payload: PayloadV,
}

impl View for Block {
    type V = BlockV;

    open spec fn view(&self) -> BlockV {
        BlockV { origin: self.origin, clock: self.clock, key: self.key@, payload: self.payload@ }
    }
}

/// The total order on writes to one key: by clock, then by replica id.
pub open spec fn precedes(a: BlockV, b: BlockV) -> bool {
    a.clock < b.clock || (a.clock == b.clock && a.origin < b.origin)
}

impl Block {
    pub fn new(origin: u64, clock: u64, key: String, payload: Payload) -> (r: Block)
        ensures
            r.origin == origin,
            r.clock == clock,
            r.key == key,
            r.payload == payload,
    {
        Block { origin, clock, key, payload }
    }

    pub fn copy(&self) -> (r: Block)
        ensures
            r@ == self@,
    {
        Block {
            origin: self.origin,
            clock: self.clock,
            key: self.key.clone(),
            payload: self.payload.copy(),
        }
    }

    pub fn equals(&self, o: &Block) -> (r: bool)
        ensures
            r == (self@ == o@),
    {
        self.origin == o.origin && self.clock == o.clock && self.key == o.key
            && self.payload.equals(&o.payload)
    }

    /// Whether this write loses to `o` in the order on writes to one key.
    pub fn precedes(&self, o: &Block) -> (r: bool)
        ensures
            r == precedes(self@, o@),
    {
        self.clock < o.clock || (self.clock == o.clock && self.origin < o.origin)
    }
}

/// Views of a list of blocks.
pub open spec fn views(bs: Seq<Block>) -> Seq<BlockV> {
    bs.map_values(|b: Block| b@)
}

} // verus!
