use vstd::prelude::*;
use vstd::utf8::{decode_utf8, encode_utf8, valid_utf8, encode_utf8_valid_utf8, encode_utf8_decode_utf8, decode_utf8_encode_utf8};
use crate::block::{Block, BlockV, Payload, PayloadV, views};
use crate::state_vector::{StateVector, sorted_ids};
use crate::store::{SyncError, Update, canonical};

verus! {

/// The leading byte of every update.
pub const FORMAT_VERSION: u8 = 1;

/// Relies on `String::from_utf8`: it accepts exactly the valid UTF-8 byte
/// strings, and the string it returns has those bytes.
#[verifier::external_body]
fn string_from_utf8(b: Vec<u8>) -> (r: Option<String>)
    ensures
        r is Some <==> valid_utf8(b@),
        r matches Some(s) ==> s@ == decode_utf8(b@),
{
    String::from_utf8(b).ok()
}

/// `a` begins `b`.
pub open spec fn is_prefix(a: Seq<u8>, b: Seq<u8>) -> bool {
    a.len() <= b.len() && b.subrange(0, a.len() as int) == a
}

proof fn lemma_prefix_split(s: Seq<u8>, pos: int, a: Seq<u8>, b: Seq<u8>)
    ensures
        prefix_at(s, pos, a + b) <==> (prefix_at(s, pos, a) && prefix_at(s, pos + a.len(), b)),
{
    if prefix_at(s, pos, a + b) {
        let w = s.subrange(pos, pos + (a + b).len());
        assert(w == a + b);
        assert((a + b).subrange(0, a.len() as int) =~= a);
        assert((a + b).subrange(a.len() as int, (a + b).len() as int) =~= b);
        assert(s.subrange(pos, pos + a.len()) =~= w.subrange(0, a.len() as int));
        assert(s.subrange(pos + a.len(), pos + a.len() + b.len()) =~= w.subrange(a.len() as int, (a + b).len() as int));
    }
    if prefix_at(s, pos, a) && prefix_at(s, pos + a.len(), b) {
        assert forall|k: int| 0 <= k < a.len() + b.len() implies s[pos + k] == (a + b)[k] by {
            if k < a.len() {
                assert(s.subrange(pos, pos + a.len())[k] == s[pos + k]);
            } else {
                assert(s.subrange(pos + a.len(), pos + a.len() + b.len())[k - a.len()] == s[pos + k]);
            }
        }
        assert(s.subrange(pos, pos + (a + b).len()) =~= a + b);
    }
}

proof fn lemma_prefix_of_prefix(s: Seq<u8>, pos: int, a: Seq<u8>, b: Seq<u8>)
    requires
        prefix_at(s, pos, b),
        is_prefix(a, b),
    ensures
        prefix_at(s, pos, a),
{
    assert(s.subrange(pos, pos + a.len()) =~= s.subrange(pos, pos + b.len()).subrange(0, a.len() as int));
}

/// A length-prefixed UTF-8 string.
pub open spec fn enc_text(cs: Seq<char>) -> Seq<u8> {
    varint(encode_utf8(cs).len() as u64) + encode_utf8(cs)
}

/// The zig-zag map of signed onto unsigned integers.
pub open spec fn zigzag(i: i64) -> u64 {
    if i >= 0 {
        (2 * i) as u64
    } else {
        (-2 * i - 1) as u64
    }
}

/// The deepest nesting of lists and records that the decoder follows.
pub const MAX_DEPTH: usize = 64;

/// Lists and records nest at most `d` deep in `p`.
pub open spec fn fits(p: PayloadV, d: nat) -> bool
    decreases p,
{
    match p {
        PayloadV::List(items) => d > 0 && forall|i: int| 0 <= i < items.len() ==> fits(#[trigger] items[i], (d - 1) as nat),
        PayloadV::Record(fs) => d > 0 && forall|i: int| 0 <= i < fs.len() ==> fits(#[trigger] fs[i].1, (d - 1) as nat),
        _ => true,
    }
}

/// A tag byte, then the payload's own bytes; a list or a record gives its
/// length, then each item.
pub open spec fn enc_payload(p: PayloadV) -> Seq<u8>
    decreases p,
{
    match p {
        PayloadV::Tombstone => seq![0u8],
        PayloadV::Bool(b) => seq![1u8, if b { 1u8 } else { 0u8 }],
        PayloadV::Int(i) => seq![2u8] + varint(zigzag(i)),
        PayloadV::Text(cs) => seq![3u8] + enc_text(cs),
        PayloadV::List(items) => seq![4u8] + varint(items.len() as u64) + enc_items(items),
        PayloadV::Record(fs) => seq![5u8] + varint(fs.len() as u64) + enc_fields(fs),
    }
}

/// Items one after another.
pub open spec fn enc_items(items: Seq<PayloadV>) -> Seq<u8>
    decreases items,
{
    if items.len() == 0 {
        Seq::empty()
    } else {
        enc_items(items.subrange(0, items.len() - 1)) + enc_payload(items[items.len() - 1])
    }
}

/// Fields one after another, each a name then a value.
pub open spec fn enc_fields(fs: Seq<(Seq<char>, PayloadV)>) -> Seq<u8>
    decreases fs,
{
    if fs.len() == 0 {
        Seq::empty()
    } else {
        enc_fields(fs.subrange(0, fs.len() - 1)) + enc_text(fs[fs.len() - 1].0) + enc_payload(fs[fs.len() - 1].1)
    }
}

pub open spec fn enc_block(b: BlockV) -> Seq<u8> {
    varint(b.origin) + varint(b.clock) + enc_text(b.key) + enc_payload(b.payload)
}

pub open spec fn enc_entries(s: Seq<(u64, u64)>) -> Seq<u8>
    decreases s.len(),
{
    if s.len() == 0 {
        Seq::empty()
    } else {
        enc_entries(s.drop_last()) + varint(s.last().0) + varint(s.last().1)
    }
}

pub open spec fn enc_blocks(s: Seq<BlockV>) -> Seq<u8>
    decreases s.len(),
{
    if s.len() == 0 {
        Seq::empty()
    } else {
        enc_blocks(s.drop_last()) + enc_block(s.last())
    }
}

/// The bytes of an update: the format version, the state vector entries,
/// then the blocks, each list behind its length.
pub open spec fn enc_update(bs: Seq<BlockV>, sv: Seq<(u64, u64)>) -> Seq<u8> {
    seq![FORMAT_VERSION] + varint(sv.len() as u64) + enc_entries(sv) + varint(bs.len() as u64) + enc_blocks(bs)
}

/// The variable-length encoding of `v`: seven bits per byte, low bits
/// first, the high bit set on every byte but the last.
pub open spec fn varint(v: u64) -> Seq<u8>
    decreases v,
{
    if v < 128 {
        seq![v as u8]
    } else {
        seq![(v % 128 + 128) as u8] + varint(v / 128)
    }
}

/// `p` begins the bytes of `s` from `pos` on.
pub open spec fn prefix_at(s: Seq<u8>, pos: int, p: Seq<u8>) -> bool {
    0 <= pos && pos + p.len() <= s.len() && s.subrange(pos, pos + p.len()) == p
}

proof fn lemma_varint_len(v: u64, k: nat)
    requires
        v < pow128(k),
        k >= 1,
    ensures
        varint(v).len() <= k,
    decreases k,
{
    if v >= 128 {
        assert(k >= 2) by {
            if k == 1 {
                assert(pow128(1) == 128 * pow128(0));
            }
        }
        assert(v / 128 < pow128((k - 1) as nat)) by (nonlinear_arith)
            requires
                v < pow128(k),
                pow128(k) == 128 * pow128((k - 1) as nat),
        ;
        lemma_varint_len(v / 128, (k - 1) as nat);
    }
}

spec fn pow128(k: nat) -> nat
    decreases k,
{
    if k == 0 {
        1
    } else {
        128 * pow128((k - 1) as nat)
    }
}

/// A 64-bit integer takes at most ten bytes.
proof fn lemma_varint_len_u64(v: u64)
    ensures
        1 <= varint(v).len() <= 10,
{
    reveal_with_fuel(pow128, 11);
    assert(pow128(10) == 0x400000000000000000nat);
    lemma_varint_len(v, 10);
}

proof fn lemma_prefix_tail(s: Seq<u8>, pos: int, v: u64)
    requires
        prefix_at(s, pos, varint(v)),
    ensures
        s[pos] == varint(v)[0],
        v >= 128 ==> prefix_at(s, pos + 1, varint(v / 128)),
        v >= 128 ==> s[pos] == (v % 128 + 128) as u8,
        v < 128 ==> s[pos] == v as u8,
{
    let e = varint(v);
    assert(s[pos] == s.subrange(pos, pos + e.len())[0]);
    if v >= 128 {
        let t = varint(v / 128);
        assert(e == seq![(v % 128 + 128) as u8] + t);
        assert(e.subrange(1, e.len() as int) =~= t);
        assert(s.subrange(pos + 1, pos + 1 + t.len()) =~= s.subrange(pos, pos + e.len()).subrange(1, e.len() as int));
    }
}

/// Appends the encoding of `v` to `out`.
pub fn write_varint(out: &mut Vec<u8>, v: u64)
    ensures
        final(out)@ == old(out)@ + varint(v),
    decreases v,
{
    if v < 128 {
        out.push(v as u8);
        assert(old(out)@.push(v as u8) =~= old(out)@ + varint(v));
    } else {
        let ghost o0 = out@;
        out.push((v % 128 + 128) as u8);
        write_varint(out, v / 128);
        assert(out@ =~= o0 + varint(v));
    }
}

fn write_text(out: &mut Vec<u8>, t: &String)
    ensures
        final(out)@ == old(out)@ + enc_text(t@),
{
    let ts: &str = t.as_str();
    let bs: &[u8] = ts.as_bytes();
    let ghost e = encode_utf8(t@);
    assert(bs@ == e);
    write_varint(out, bs.len() as u64);
    let ghost o1 = out@;
    let mut i: usize = 0;
    while i < bs.len()
        invariant
            bs@ == e,
            0 <= i <= e.len(),
            out@ == o1 + e.subrange(0, i as int),
        decreases e.len() - i,
    {
        out.push(bs[i]);
        i = i + 1;
        assert(out@ =~= o1 + e.subrange(0, i as int));
    }
    assert(e.subrange(0, e.len() as int) =~= e);
    assert(out@ =~= old(out)@ + enc_text(t@));
}

fn write_payload(out: &mut Vec<u8>, p: &Payload)
    ensures
        final(out)@ == old(out)@ + enc_payload(p@),
    decreases p,
{
    let ghost o0 = out@;
    match p {
        Payload::Tombstone => {
            out.push(0);
        },
        Payload::Bool(b) => {
            out.push(1);
            out.push(if *b { 1 } else { 0 });
        },
        Payload::Int(i) => {
            out.push(2);
            let z: u64 = if *i >= 0 { (*i as u64) * 2 } else { ((-(*i + 1)) as u64) * 2 + 1 };
            assert(z == zigzag(*i));
            write_varint(out, z);
        },
        Payload::Text(t) => {
            out.push(3);
            write_text(out, t);
        },
        Payload::List(v) => {
            out.push(4);
            write_varint(out, v.len() as u64);
            let ghost items = p@->List_0;
            let ghost o1 = out@;
            let mut i: usize = 0;
            assert(items.subrange(0, 0) =~= Seq::<PayloadV>::empty());
            while i < v.len()
                invariant
                    *p == Payload::List(*v),
                    items == p@->List_0,
                    items.len() == v@.len(),
                    0 <= i <= v@.len(),
                    out@ == o1 + enc_items(items.subrange(0, i as int)),
                decreases v@.len() - i,
            {
                proof {
                    let me = *p;
                    let vv = *v;
                    assert(decreases_to!(me => me->List_0));
                    assert(decreases_to!(vv => vv@));
                    assert(decreases_to!(vv@ => vv@[i as int]));
                }
                write_payload(out, &v[i]);
                i = i + 1;
                let ghost pre = items.subrange(0, i as int);
                assert(pre.subrange(0, pre.len() - 1) =~= items.subrange(0, i - 1));
                assert(pre[pre.len() - 1] == v@[i - 1]@);
                assert(out@ =~= o1 + enc_items(pre));
            }
            assert(items.subrange(0, i as int) =~= items);
        },
        Payload::Record(v) => {
            out.push(5);
            write_varint(out, v.len() as u64);
            let ghost fs = p@->Record_0;
            let ghost o1 = out@;
            let mut i: usize = 0;
            assert(fs.subrange(0, 0) =~= Seq::<(Seq<char>, PayloadV)>::empty());
            while i < v.len()
                invariant
                    *p == Payload::Record(*v),
                    fs == p@->Record_0,
                    fs.len() == v@.len(),
                    0 <= i <= v@.len(),
                    out@ == o1 + enc_fields(fs.subrange(0, i as int)),
                decreases v@.len() - i,
            {
                proof {
                    let me = *p;
                    let vv = *v;
                    assert(decreases_to!(me => me->Record_0));
                    assert(decreases_to!(vv => vv@));
                    assert(decreases_to!(vv@ => vv@[i as int]));
                    assert(decreases_to!(vv@[i as int] => vv@[i as int].1));
                }
                write_text(out, &v[i].0);
                write_payload(out, &v[i].1);
                i = i + 1;
                let ghost pre = fs.subrange(0, i as int);
                assert(pre.subrange(0, pre.len() - 1) =~= fs.subrange(0, i - 1));
                assert(pre[pre.len() - 1] == (v@[i - 1].0@, v@[i - 1].1@));
                assert(out@ =~= o1 + enc_fields(pre));
            }
            assert(fs.subrange(0, i as int) =~= fs);
        },
    }
    assert(out@ =~= o0 + enc_payload(p@));
}

fn write_block(out: &mut Vec<u8>, b: &Block)
    ensures
        final(out)@ == old(out)@ + enc_block(b@),
{
    let ghost o0 = out@;
    write_varint(out, b.origin);
    write_varint(out, b.clock);
    write_text(out, &b.key);
    write_payload(out, &b.payload);
    assert(out@ =~= o0 + enc_block(b@));
}

/// The bytes of an update holding `blocks` and state vector `sv`. The
/// blocks come grouped by replica id ascending with contiguous clocks, and
/// the entries by replica id ascending, which is the order `decode` checks.
pub fn encode(blocks: &Vec<Block>, sv: &StateVector) -> (r: Vec<u8>)
    requires
        canonical(views(blocks@)),
        sv.wf(),
    ensures
        r@ == enc_update(views(blocks@), sv.entries@),
{
    let mut out: Vec<u8> = Vec::new();
    out.push(FORMAT_VERSION);
    write_varint(&mut out, sv.entries.len() as u64);
    let ghost h = out@;
    let mut i: usize = 0;
    while i < sv.entries.len()
        invariant
            0 <= i <= sv.entries@.len(),
            out@ == h + enc_entries(sv.entries@.subrange(0, i as int)),
        decreases sv.entries@.len() - i,
    {
        let (id, c) = sv.entries[i];
        write_varint(&mut out, id);
        write_varint(&mut out, c);
        i = i + 1;
        assert(sv.entries@.subrange(0, i as int).drop_last() =~= sv.entries@.subrange(0, i - 1));
        assert(out@ =~= h + enc_entries(sv.entries@.subrange(0, i as int)));
    }
    assert(sv.entries@.subrange(0, i as int) =~= sv.entries@);
    write_varint(&mut out, blocks.len() as u64);
    let ghost h2 = out@;
    let ghost vs = views(blocks@);
    let mut j: usize = 0;
    while j < blocks.len()
        invariant
            vs == views(blocks@),
            0 <= j <= blocks@.len(),
            out@ == h2 + enc_blocks(vs.subrange(0, j as int)),
        decreases blocks@.len() - j,
    {
        write_block(&mut out, &blocks[j]);
        j = j + 1;
        assert(vs.subrange(0, j as int).drop_last() =~= vs.subrange(0, j - 1));
        assert(out@ =~= h2 + enc_blocks(vs.subrange(0, j as int)));
    }
    assert(vs.subrange(0, j as int) =~= vs);
    assert(out@ =~= enc_update(vs, sv.entries@));
    out
}

/// Reads a varint from `b` at `pos`, reading at most `fuel` bytes.
/// Accepts exactly the canonical encodings that fit in 64 bits.
fn read_varint(b: &Vec<u8>, pos: usize, fuel: usize) -> (r: Option<(u64, usize)>)
    requires
        pos <= b@.len(),
    ensures
        r matches Some((v, p)) ==> pos < p <= b@.len() && b@.subrange(pos as int, p as int) == varint(v),
        forall|v: u64|
            prefix_at(b@, pos as int, #[trigger] varint(v)) && varint(v).len() <= fuel ==> r == Some(
                (v, (pos + varint(v).len()) as usize),
            ),
    decreases fuel,
{
    if fuel == 0 || pos >= b.len() {
        return None;
    }
    let byte = b[pos];
    if byte < 128 {
        let r = Some((byte as u64, pos + 1));
        proof {
            assert(b@.subrange(pos as int, pos + 1) =~= varint(byte as u64));
            assert forall|v: u64|
                prefix_at(b@, pos as int, #[trigger] varint(v)) && varint(v).len() <= fuel implies r == Some(
                    (v, (pos + varint(v).len()) as usize),
                ) by {
                assert(b@.subrange(pos as int, pos + varint(v).len())[0] == b@[pos as int]);
                if v >= 128 {
                    assert(varint(v)[0] == (v % 128 + 128) as u8);
                }
            }
        }
        return r;
    }
    let lo: u64 = (byte - 128) as u64;
    match read_varint(b, pos + 1, fuel - 1) {
        Some((t, p)) => {
            if t == 0 || t > (u64::MAX - lo) / 128 {
                proof {
                    assert forall|v: u64| prefix_at(b@, pos as int, #[trigger] varint(v)) && varint(v).len() <= fuel implies false by {
                        assert(b@.subrange(pos as int, pos + varint(v).len())[0] == b@[pos as int]);
                        assert(v >= 128);
                        assert(varint(v) == seq![(v % 128 + 128) as u8] + varint(v / 128));
                        lemma_prefix_tail(b@, pos as int, v);
                        assert(v % 128 == lo);
                        assert(v == lo + 128 * (v / 128));
                    }
                }
                None
            } else {
                let v: u64 = lo + 128 * t;
                proof {
                    assert(v % 128 == lo && v / 128 == t) by (nonlinear_arith)
                        requires
                            v == lo + 128 * t,
                            lo < 128,
                    ;
                    assert(b@.subrange(pos as int, p as int) =~= seq![byte] + b@.subrange(pos + 1, p as int));
                    assert(forall|w: u64| prefix_at(b@, pos as int, #[trigger] varint(w)) && varint(w).len() <= fuel ==> {
                        &&& w >= 128
                        &&& varint(w) == seq![(w % 128 + 128) as u8] + varint(w / 128)
                    }) by {
                        assert forall|w: u64| prefix_at(b@, pos as int, #[trigger] varint(w)) && varint(w).len() <= fuel implies w >= 128 by {
                            assert(b@.subrange(pos as int, pos + varint(w).len())[0] == b@[pos as int]);
                        }
                    }
                    assert forall|w: u64| prefix_at(b@, pos as int, #[trigger] varint(w)) && varint(w).len() <= fuel implies Some((v, p)) == Some(
                        (w, (pos + varint(w).len()) as usize),
                    ) by {
                        assert(w >= 128);
                        lemma_prefix_tail(b@, pos as int, w);
                        assert(b@.subrange(pos as int, pos + varint(w).len())[0] == b@[pos as int]);
                        assert(w % 128 == lo);
                        assert(w == lo + 128 * (w / 128));
                    }
                }
                Some((v, p))
            }
        },
        None => {
            proof {
                assert forall|v: u64| prefix_at(b@, pos as int, #[trigger] varint(v)) && varint(v).len() <= fuel implies false by {
                    assert(b@.subrange(pos as int, pos + varint(v).len())[0] == b@[pos as int]);
                    assert(v >= 128);
                    lemma_prefix_tail(b@, pos as int, v);
                }
            }
            None
        },
    }
}


fn read_text(b: &Vec<u8>, pos: usize) -> (r: Option<(String, usize)>)
    requires
        pos <= b@.len(),
    ensures
        r matches Some((t, p)) ==> prefix_at(b@, pos as int, enc_text(t@)) && p == pos + enc_text(t@).len(),
        forall|cs: Seq<char>| #[trigger] prefix_at(b@, pos as int, enc_text(cs)) ==> (r matches Some((t, p)) && t@ == cs
            && p == pos + enc_text(cs).len()),
{
    proof {
        assert forall|cs: Seq<char>| #[trigger] prefix_at(b@, pos as int, enc_text(cs)) implies prefix_at(b@, pos as int, varint(encode_utf8(cs).len() as u64))
            && prefix_at(b@, pos + varint(encode_utf8(cs).len() as u64).len(), encode_utf8(cs)) && varint(encode_utf8(cs).len() as u64).len() <= 10 by {
            lemma_prefix_split(b@, pos as int, varint(encode_utf8(cs).len() as u64), encode_utf8(cs));
            lemma_varint_len_u64(encode_utf8(cs).len() as u64);
        }
    }
    match read_varint(b, pos, 10) {
        None => None,
        Some((n, p)) => {
            if n > (b.len() - p) as u64 {
                return None;
            }
            let end: usize = p + n as usize;
            let mut v: Vec<u8> = Vec::new();
            let mut i: usize = p;
            while i < end
                invariant
                    p <= i <= end <= b@.len(),
                    v@ == b@.subrange(p as int, i as int),
                decreases end - i,
            {
                v.push(b[i]);
                i = i + 1;
                assert(v@ =~= b@.subrange(p as int, i as int));
            }
            let ghost vb = v@;
            proof {
                assert forall|cs: Seq<char>| #[trigger] prefix_at(b@, pos as int, enc_text(cs)) implies vb == encode_utf8(cs) by {
                    assert(n == encode_utf8(cs).len() as u64);
                }
            }
            match string_from_utf8(v) {
                Some(t) => {
                    proof {
                        decode_utf8_encode_utf8(vb);
                        assert(prefix_at(b@, p as int, encode_utf8(t@)));
                        lemma_prefix_split(b@, pos as int, varint(encode_utf8(t@).len() as u64), encode_utf8(t@));
                        assert forall|cs: Seq<char>| #[trigger] prefix_at(b@, pos as int, enc_text(cs)) implies t@ == cs by {
                            encode_utf8_decode_utf8(cs);
                        }
                    }
                    Some((t, end))
                },
                None => {
                    proof {
                        assert forall|cs: Seq<char>| #[trigger] prefix_at(b@, pos as int, enc_text(cs)) implies false by {
                            encode_utf8_valid_utf8(cs);
                        }
                    }
                    None
                },
            }
        },
    }
}

fn unzigzag(z: u64) -> (i: i64)
    ensures
        zigzag(i) == z,
        forall|j: i64| zigzag(j) == z ==> j == i,
{
    if z % 2 == 0 {
        (z / 2) as i64
    } else {
        -((z / 2) as i64) - 1
    }
}

#[verifier::rlimit(60)]
fn read_payload(b: &Vec<u8>, pos: usize, depth: usize) -> (r: Option<(Payload, usize)>)
    requires
        pos <= b@.len(),
    ensures
        r matches Some((x, p)) ==> prefix_at(b@, pos as int, enc_payload(x@)) && p == pos + enc_payload(x@).len(),
        forall|y: PayloadV| #[trigger] prefix_at(b@, pos as int, enc_payload(y)) && fits(y, depth as nat) ==> (r matches Some((x, p))
            && x@ == y && p == pos + enc_payload(y).len()),
    decreases depth, 2nat,
{
    if pos >= b.len() {
        return None;
    }
    let tag = b[pos];
    proof {
        assert forall|y: PayloadV| #[trigger] prefix_at(b@, pos as int, enc_payload(y)) implies prefix_at(b@, pos + 1, enc_payload(y).subrange(1, enc_payload(y).len() as int))
            && tag == enc_payload(y)[0] by {
            lemma_prefix_split(b@, pos as int, seq![enc_payload(y)[0]], enc_payload(y).subrange(1, enc_payload(y).len() as int));
            assert(seq![enc_payload(y)[0]] + enc_payload(y).subrange(1, enc_payload(y).len() as int) =~= enc_payload(y));
            assert(b@.subrange(pos as int, pos + enc_payload(y).len())[0] == b@[pos as int]);
        }
    }
    if tag == 0 {
        proof {
            assert(b@.subrange(pos as int, pos + 1) =~= enc_payload(PayloadV::Tombstone));
        }
        Some((Payload::Tombstone, pos + 1))
    } else if tag == 1 {
        if pos + 1 >= b.len() {
            return None;
        }
        let v = b[pos + 1];
        if v > 1 {
            proof {
                assert forall|y: PayloadV| #[trigger] prefix_at(b@, pos as int, enc_payload(y)) implies !fits(y, depth as nat) by {
                    assert(b@.subrange(pos as int, pos + enc_payload(y).len())[1] == b@[pos + 1]);
                }
            }
            return None;
        }
        let x = Payload::Bool(v == 1);
        proof {
            assert(b@.subrange(pos as int, pos + 2) =~= enc_payload(x@));
            assert forall|y: PayloadV| #[trigger] prefix_at(b@, pos as int, enc_payload(y)) implies x@ == y by {
                assert(b@.subrange(pos as int, pos + enc_payload(y).len())[1] == b@[pos + 1]);
            }
        }
        Some((x, pos + 2))
    } else if tag == 2 {
        match read_varint(b, pos + 1, 10) {
            Some((z, p)) => {
                let i = unzigzag(z);
                let x = Payload::Int(i);
                proof {
                    lemma_prefix_split(b@, pos as int, seq![2u8], varint(z));
                    assert(b@.subrange(pos as int, pos + 1) =~= seq![2u8]);
                    assert forall|y: PayloadV| #[trigger] prefix_at(b@, pos as int, enc_payload(y)) implies x@ == y by {
                        let j = y->Int_0;
                        assert(enc_payload(y).subrange(1, enc_payload(y).len() as int) =~= varint(zigzag(j)));
                        lemma_varint_len_u64(zigzag(j));
                    }
                }
                Some((x, p))
            },
            None => {
                proof {
                    assert forall|y: PayloadV| #[trigger] prefix_at(b@, pos as int, enc_payload(y)) implies !fits(y, depth as nat) by {
                        let j = y->Int_0;
                        assert(enc_payload(y).subrange(1, enc_payload(y).len() as int) =~= varint(zigzag(j)));
                        lemma_varint_len_u64(zigzag(j));
                    }
                }
                None
            },
        }
    } else if tag == 3 {
        match read_text(b, pos + 1) {
            Some((t, p)) => {
                let x = Payload::Text(t);
                proof {
                    lemma_prefix_split(b@, pos as int, seq![3u8], enc_text(x@->Text_0));
                    assert(b@.subrange(pos as int, pos + 1) =~= seq![3u8]);
                    assert forall|y: PayloadV| #[trigger] prefix_at(b@, pos as int, enc_payload(y)) implies x@ == y by {
                        assert(enc_payload(y).subrange(1, enc_payload(y).len() as int) =~= enc_text(y->Text_0));
                    }
                }
                Some((x, p))
            },
            None => {
                proof {
                    assert forall|y: PayloadV| #[trigger] prefix_at(b@, pos as int, enc_payload(y)) implies !fits(y, depth as nat) by {
                        assert(enc_payload(y).subrange(1, enc_payload(y).len() as int) =~= enc_text(y->Text_0));
                    }
                }
                None
            },
        }
    } else if tag == 4 {
        read_list(b, pos, depth)
    } else if tag == 5 {
        read_record(b, pos, depth)
    } else {
        None
    }
}

proof fn lemma_tag_variant(y: PayloadV)
    ensures
        enc_payload(y).len() >= 1,
        enc_payload(y)[0] == 4 <==> y is List,
        enc_payload(y)[0] == 5 <==> y is Record,
{
}

proof fn lemma_items_len(s: Seq<PayloadV>)
    ensures
        enc_items(s).len() >= s.len(),
    decreases s.len(),
{
    if s.len() > 0 {
        lemma_items_len(s.subrange(0, s.len() - 1));
        lemma_tag_variant(s[s.len() - 1]);
    }
}

proof fn lemma_fields_len(s: Seq<(Seq<char>, PayloadV)>)
    ensures
        enc_fields(s).len() >= s.len(),
    decreases s.len(),
{
    if s.len() > 0 {
        lemma_fields_len(s.subrange(0, s.len() - 1));
        lemma_tag_variant(s[s.len() - 1].1);
    }
}

#[verifier::rlimit(60)]
fn read_list(b: &Vec<u8>, pos: usize, depth: usize) -> (r: Option<(Payload, usize)>)
    requires
        pos < b@.len(),
        b@[pos as int] == 4,
    ensures
        r matches Some((x, p)) ==> prefix_at(b@, pos as int, enc_payload(x@)) && p == pos + enc_payload(x@).len(),
        forall|y: PayloadV| #[trigger] prefix_at(b@, pos as int, enc_payload(y)) && fits(y, depth as nat) ==> (r matches Some((x, p))
            && x@ == y && p == pos + enc_payload(y).len()),
    decreases depth, 1nat,
{
    let len = b.len();
    proof {
        assert forall|y: PayloadV| #[trigger] prefix_at(b@, pos as int, enc_payload(y)) implies y is List by {
            lemma_tag_variant(y);
            assert(b@.subrange(pos as int, pos + enc_payload(y).len())[0] == b@[pos as int]);
        }
        assert forall|y: PayloadV| #[trigger] prefix_at(b@, pos as int, enc_payload(y)) implies prefix_at(b@, pos + 1, varint(y->List_0.len() as u64) + enc_items(y->List_0)) && y->List_0.len() <= u64::MAX by {
            let ys = y->List_0;
            lemma_items_len(ys);
            assert(b@.len() == len);
            assert(enc_payload(y) =~= seq![4u8] + (varint(ys.len() as u64) + enc_items(ys)));
            lemma_prefix_split(b@, pos as int, seq![4u8], varint(ys.len() as u64) + enc_items(ys));
        }
    }
    if depth == 0 {
        return None;
    }
    let (n, p1) = match read_varint(b, pos + 1, 10) {
        Some(x) => x,
        None => {
            proof {
                assert forall|y: PayloadV| #[trigger] prefix_at(b@, pos as int, enc_payload(y)) implies !fits(y, depth as nat) by {
                    let ys = y->List_0;
                    assert(enc_payload(y).subrange(1, enc_payload(y).len() as int) =~= varint(ys.len() as u64) + enc_items(ys));
                    lemma_prefix_split(b@, pos + 1, varint(ys.len() as u64), enc_items(ys));
                    lemma_varint_len_u64(ys.len() as u64);
                }
            }
            return None;
        },
    };
    proof {
        assert forall|y: PayloadV| #[trigger] prefix_at(b@, pos as int, enc_payload(y)) && fits(y, depth as nat) implies
            y->List_0.len() == n && prefix_at(b@, p1 as int, enc_items(y->List_0)) by {
            let ys = y->List_0;
            assert(enc_payload(y).subrange(1, enc_payload(y).len() as int) =~= varint(ys.len() as u64) + enc_items(ys));
            lemma_prefix_split(b@, pos + 1, varint(ys.len() as u64), enc_items(ys));
            lemma_varint_len_u64(ys.len() as u64);
        }
    }
    match read_items(b, p1, n, depth) {
        Some((xs, p2)) => {
            let x = Payload::List(xs);
            proof {
                assert(x@->List_0 =~= xs@.map_values(|e: Payload| e@));
                lemma_prefix_split(b@, pos as int, seq![4u8], varint(n));
                assert(b@.subrange(pos as int, pos + 1) =~= seq![4u8]);
                lemma_prefix_split(b@, pos as int, seq![4u8] + varint(n), enc_items(x@->List_0));
                assert forall|y: PayloadV| #[trigger] prefix_at(b@, pos as int, enc_payload(y)) && fits(y, depth as nat) implies x@ == y by {
                    assert(x@->List_0 =~= y->List_0);
                }
            }
            Some((x, p2))
        },
        None => None,
    }
}

#[verifier::rlimit(60)]
fn read_record(b: &Vec<u8>, pos: usize, depth: usize) -> (r: Option<(Payload, usize)>)
    requires
        pos < b@.len(),
        b@[pos as int] == 5,
    ensures
        r matches Some((x, p)) ==> prefix_at(b@, pos as int, enc_payload(x@)) && p == pos + enc_payload(x@).len(),
        forall|y: PayloadV| #[trigger] prefix_at(b@, pos as int, enc_payload(y)) && fits(y, depth as nat) ==> (r matches Some((x, p))
            && x@ == y && p == pos + enc_payload(y).len()),
    decreases depth, 1nat,
{
    let len = b.len();
    proof {
        assert forall|y: PayloadV| #[trigger] prefix_at(b@, pos as int, enc_payload(y)) implies y is Record by {
            lemma_tag_variant(y);
            assert(b@.subrange(pos as int, pos + enc_payload(y).len())[0] == b@[pos as int]);
        }
        assert forall|y: PayloadV| #[trigger] prefix_at(b@, pos as int, enc_payload(y)) implies prefix_at(b@, pos + 1, varint(y->Record_0.len() as u64) + enc_fields(y->Record_0)) && y->Record_0.len() <= u64::MAX by {
            let ys = y->Record_0;
            lemma_fields_len(ys);
            assert(b@.len() == len);
            assert(enc_payload(y) =~= seq![5u8] + (varint(ys.len() as u64) + enc_fields(ys)));
            lemma_prefix_split(b@, pos as int, seq![5u8], varint(ys.len() as u64) + enc_fields(ys));
        }
    }
    if depth == 0 {
        return None;
    }
    let (n, p1) = match read_varint(b, pos + 1, 10) {
        Some(x) => x,
        None => {
            proof {
                assert forall|y: PayloadV| #[trigger] prefix_at(b@, pos as int, enc_payload(y)) implies !fits(y, depth as nat) by {
                    let ys = y->Record_0;
                    assert(enc_payload(y).subrange(1, enc_payload(y).len() as int) =~= varint(ys.len() as u64) + enc_fields(ys));
                    lemma_prefix_split(b@, pos + 1, varint(ys.len() as u64), enc_fields(ys));
                    lemma_varint_len_u64(ys.len() as u64);
                }
            }
            return None;
        },
    };
    proof {
        assert forall|y: PayloadV| #[trigger] prefix_at(b@, pos as int, enc_payload(y)) && fits(y, depth as nat) implies
            y->Record_0.len() == n && prefix_at(b@, p1 as int, enc_fields(y->Record_0)) by {
            let ys = y->Record_0;
            assert(enc_payload(y).subrange(1, enc_payload(y).len() as int) =~= varint(ys.len() as u64) + enc_fields(ys));
            lemma_prefix_split(b@, pos + 1, varint(ys.len() as u64), enc_fields(ys));
            lemma_varint_len_u64(ys.len() as u64);
        }
    }
    match read_fields(b, p1, n, depth) {
        Some((xs, p2)) => {
            let x = Payload::Record(xs);
            proof {
                assert(x@->Record_0 =~= xs@.map_values(|e: (String, Payload)| (e.0@, e.1@)));
                lemma_prefix_split(b@, pos as int, seq![5u8], varint(n));
                assert(b@.subrange(pos as int, pos + 1) =~= seq![5u8]);
                lemma_prefix_split(b@, pos as int, seq![5u8] + varint(n), enc_fields(x@->Record_0));
                assert forall|y: PayloadV| #[trigger] prefix_at(b@, pos as int, enc_payload(y)) && fits(y, depth as nat) implies x@ == y by {
                    assert(x@->Record_0 =~= y->Record_0);
                }
            }
            Some((x, p2))
        },
        None => None,
    }
}

proof fn lemma_items_prefix(s: Seq<PayloadV>, i: int)
    requires
        0 <= i <= s.len(),
    ensures
        is_prefix(enc_items(s.subrange(0, i)), enc_items(s)),
    decreases s.len(),
{
    if i == s.len() {
        assert(s.subrange(0, i) =~= s);
        assert(enc_items(s).subrange(0, enc_items(s).len() as int) =~= enc_items(s));
    } else {
        let d = s.subrange(0, s.len() - 1);
        lemma_items_prefix(d, i);
        assert(d.subrange(0, i) =~= s.subrange(0, i));
        let e = enc_items(s.subrange(0, i));
        assert(enc_items(s).subrange(0, e.len() as int) =~= enc_items(d).subrange(0, e.len() as int));
    }
}

proof fn lemma_fields_prefix(s: Seq<(Seq<char>, PayloadV)>, i: int)
    requires
        0 <= i <= s.len(),
    ensures
        is_prefix(enc_fields(s.subrange(0, i)), enc_fields(s)),
    decreases s.len(),
{
    if i == s.len() {
        assert(s.subrange(0, i) =~= s);
        assert(enc_fields(s).subrange(0, enc_fields(s).len() as int) =~= enc_fields(s));
    } else {
        let d = s.subrange(0, s.len() - 1);
        lemma_fields_prefix(d, i);
        assert(d.subrange(0, i) =~= s.subrange(0, i));
        let e = enc_fields(s.subrange(0, i));
        assert(enc_fields(s).subrange(0, e.len() as int) =~= enc_fields(d).subrange(0, e.len() as int));
    }
}

#[verifier::rlimit(40)]
fn read_items(b: &Vec<u8>, pos: usize, n: u64, depth: usize) -> (r: Option<(Vec<Payload>, usize)>)
    requires
        pos <= b@.len(),
        depth > 0,
    ensures
        r matches Some((xs, p)) ==> xs@.len() == n && prefix_at(b@, pos as int, enc_items(xs@.map_values(|e: Payload| e@)))
            && p == pos + enc_items(xs@.map_values(|e: Payload| e@)).len(),
        forall|ys: Seq<PayloadV>|
            ys.len() == n && (forall|i: int| 0 <= i < ys.len() ==> fits(#[trigger] ys[i], (depth - 1) as nat)) && #[trigger] prefix_at(
                b@,
                pos as int,
                enc_items(ys),
            ) ==> (r matches Some((xs, p)) && xs@.map_values(|e: Payload| e@) == ys && p == pos + enc_items(ys).len()),
    decreases depth, 0nat,
{
    let mut out: Vec<Payload> = Vec::new();
    let mut cur: usize = pos;
    let mut j: u64 = 0;
    assert(out@.map_values(|e: Payload| e@) =~= Seq::<PayloadV>::empty());
    assert(b@.subrange(pos as int, pos as int) =~= enc_items(out@.map_values(|e: Payload| e@)));
    while j < n
        invariant
            out@.len() == j,
            j <= n,
            pos <= b@.len(),
            depth > 0,
            prefix_at(b@, pos as int, enc_items(out@.map_values(|e: Payload| e@))),
            cur == pos + enc_items(out@.map_values(|e: Payload| e@)).len(),
            forall|ys: Seq<PayloadV>|
                ys.len() == n && (forall|i: int| 0 <= i < ys.len() ==> fits(#[trigger] ys[i], (depth - 1) as nat)) && #[trigger] prefix_at(
                    b@,
                    pos as int,
                    enc_items(ys),
                ) ==> out@.map_values(|e: Payload| e@) == ys.subrange(0, j as int),
        decreases n - j,
    {
        let ghost vb = out@.map_values(|e: Payload| e@);
        proof {
            assert forall|ys: Seq<PayloadV>|
                ys.len() == n && (forall|i: int| 0 <= i < ys.len() ==> fits(#[trigger] ys[i], (depth - 1) as nat)) && #[trigger] prefix_at(
                    b@,
                    pos as int,
                    enc_items(ys),
                ) implies prefix_at(b@, cur as int, enc_payload(ys[j as int])) && fits(ys[j as int], (depth - 1) as nat) by {
                let e1 = ys.subrange(0, j + 1);
                assert(e1.subrange(0, e1.len() - 1) =~= vb);
                lemma_items_prefix(ys, j + 1);
                lemma_prefix_of_prefix(b@, pos as int, enc_items(e1), enc_items(ys));
                assert(enc_items(e1) == enc_items(vb) + enc_payload(ys[j as int]));
                lemma_prefix_split(b@, pos as int, enc_items(vb), enc_payload(ys[j as int]));
            }
        }
        let (x, p4) = match read_payload(b, cur, depth - 1) {
            Some(x) => x,
            None => return None,
        };
        out.push(x);
        proof {
            let nb = out@.map_values(|e: Payload| e@);
            assert(nb.subrange(0, nb.len() - 1) =~= vb);
            assert(nb[nb.len() - 1] == out@.last()@);
            lemma_prefix_split(b@, pos as int, enc_items(vb), enc_payload(nb[nb.len() - 1]));
            assert forall|ys: Seq<PayloadV>|
                ys.len() == n && (forall|i: int| 0 <= i < ys.len() ==> fits(#[trigger] ys[i], (depth - 1) as nat)) && #[trigger] prefix_at(
                    b@,
                    pos as int,
                    enc_items(ys),
                ) implies nb == ys.subrange(0, j + 1) by {
                assert(nb =~= ys.subrange(0, j + 1));
            }
        }
        cur = p4;
        j = j + 1;
    }
    proof {
        assert forall|ys: Seq<PayloadV>|
            ys.len() == n && (forall|i: int| 0 <= i < ys.len() ==> fits(#[trigger] ys[i], (depth - 1) as nat)) && #[trigger] prefix_at(
                b@,
                pos as int,
                enc_items(ys),
            ) implies out@.map_values(|e: Payload| e@) == ys by {
            assert(ys.subrange(0, j as int) =~= ys);
        }
    }
    Some((out, cur))
}

#[verifier::rlimit(40)]
fn read_fields(b: &Vec<u8>, pos: usize, n: u64, depth: usize) -> (r: Option<(Vec<(String, Payload)>, usize)>)
    requires
        pos <= b@.len(),
        depth > 0,
    ensures
        r matches Some((xs, p)) ==> xs@.len() == n && prefix_at(b@, pos as int, enc_fields(xs@.map_values(|e: (String, Payload)| (e.0@, e.1@))))
            && p == pos + enc_fields(xs@.map_values(|e: (String, Payload)| (e.0@, e.1@))).len(),
        forall|ys: Seq<(Seq<char>, PayloadV)>|
            ys.len() == n && (forall|i: int| 0 <= i < ys.len() ==> fits(#[trigger] ys[i].1, (depth - 1) as nat)) && #[trigger] prefix_at(
                b@,
                pos as int,
                enc_fields(ys),
            ) ==> (r matches Some((xs, p)) && xs@.map_values(|e: (String, Payload)| (e.0@, e.1@)) == ys && p == pos + enc_fields(ys).len()),
    decreases depth, 0nat,
{
    let mut out: Vec<(String, Payload)> = Vec::new();
    let mut cur: usize = pos;
    let mut j: u64 = 0;
    assert(out@.map_values(|e: (String, Payload)| (e.0@, e.1@)) =~= Seq::<(Seq<char>, PayloadV)>::empty());
    assert(b@.subrange(pos as int, pos as int) =~= enc_fields(out@.map_values(|e: (String, Payload)| (e.0@, e.1@))));
    while j < n
        invariant
            out@.len() == j,
            j <= n,
            pos <= b@.len(),
            depth > 0,
            prefix_at(b@, pos as int, enc_fields(out@.map_values(|e: (String, Payload)| (e.0@, e.1@)))),
            cur == pos + enc_fields(out@.map_values(|e: (String, Payload)| (e.0@, e.1@))).len(),
            forall|ys: Seq<(Seq<char>, PayloadV)>|
                ys.len() == n && (forall|i: int| 0 <= i < ys.len() ==> fits(#[trigger] ys[i].1, (depth - 1) as nat)) && #[trigger] prefix_at(
                    b@,
                    pos as int,
                    enc_fields(ys),
                ) ==> out@.map_values(|e: (String, Payload)| (e.0@, e.1@)) == ys.subrange(0, j as int),
        decreases n - j,
    {
        let ghost vb = out@.map_values(|e: (String, Payload)| (e.0@, e.1@));
        proof {
            assert forall|ys: Seq<(Seq<char>, PayloadV)>|
                ys.len() == n && (forall|i: int| 0 <= i < ys.len() ==> fits(#[trigger] ys[i].1, (depth - 1) as nat)) && #[trigger] prefix_at(
                    b@,
                    pos as int,
                    enc_fields(ys),
                ) implies prefix_at(b@, cur as int, enc_text(ys[j as int].0)) && prefix_at(
                b@,
                cur + enc_text(ys[j as int].0).len(),
                enc_payload(ys[j as int].1),
            ) && fits(ys[j as int].1, (depth - 1) as nat) by {
                let e1 = ys.subrange(0, j + 1);
                assert(e1.subrange(0, e1.len() - 1) =~= vb);
                lemma_fields_prefix(ys, j + 1);
                lemma_prefix_of_prefix(b@, pos as int, enc_fields(e1), enc_fields(ys));
                assert(enc_fields(e1) == enc_fields(vb) + enc_text(ys[j as int].0) + enc_payload(ys[j as int].1));
                lemma_prefix_split(b@, pos as int, enc_fields(vb) + enc_text(ys[j as int].0), enc_payload(ys[j as int].1));
                lemma_prefix_split(b@, pos as int, enc_fields(vb), enc_text(ys[j as int].0));
            }
        }
        let (name, p3) = match read_text(b, cur) {
            Some(x) => x,
            None => return None,
        };
        let (x, p4) = match read_payload(b, p3, depth - 1) {
            Some(x) => x,
            None => return None,
        };
        out.push((name, x));
        proof {
            let nb = out@.map_values(|e: (String, Payload)| (e.0@, e.1@));
            assert(nb.subrange(0, nb.len() - 1) =~= vb);
            assert(nb[nb.len() - 1] == (out@.last().0@, out@.last().1@));
            lemma_prefix_split(b@, pos as int, enc_fields(vb), enc_text(nb[nb.len() - 1].0));
            lemma_prefix_split(b@, pos as int, enc_fields(vb) + enc_text(nb[nb.len() - 1].0), enc_payload(nb[nb.len() - 1].1));
            assert forall|ys: Seq<(Seq<char>, PayloadV)>|
                ys.len() == n && (forall|i: int| 0 <= i < ys.len() ==> fits(#[trigger] ys[i].1, (depth - 1) as nat)) && #[trigger] prefix_at(
                    b@,
                    pos as int,
                    enc_fields(ys),
                ) implies nb == ys.subrange(0, j + 1) by {
                assert(nb =~= ys.subrange(0, j + 1));
            }
        }
        cur = p4;
        j = j + 1;
    }
    proof {
        assert forall|ys: Seq<(Seq<char>, PayloadV)>|
            ys.len() == n && (forall|i: int| 0 <= i < ys.len() ==> fits(#[trigger] ys[i].1, (depth - 1) as nat)) && #[trigger] prefix_at(
                b@,
                pos as int,
                enc_fields(ys),
            ) implies out@.map_values(|e: (String, Payload)| (e.0@, e.1@)) == ys by {
            assert(ys.subrange(0, j as int) =~= ys);
        }
    }
    Some((out, cur))
}



fn read_block(b: &Vec<u8>, pos: usize) -> (r: Option<(Block, usize)>)
    requires
        pos <= b@.len(),
    ensures
        r matches Some((x, p)) ==> prefix_at(b@, pos as int, enc_block(x@)) && p == pos + enc_block(x@).len(),
        forall|y: BlockV| #[trigger] prefix_at(b@, pos as int, enc_block(y)) && fits(y.payload, MAX_DEPTH as nat) ==> (r matches Some((x, p))
            && x@ == y && p == pos + enc_block(y).len()),
{
    proof {
        assert forall|y: BlockV| #[trigger] prefix_at(b@, pos as int, enc_block(y)) implies {
            let p1 = pos + varint(y.origin).len();
            let p2 = p1 + varint(y.clock).len();
            let p3 = p2 + enc_text(y.key).len();
            &&& prefix_at(b@, pos as int, varint(y.origin))
            &&& prefix_at(b@, p1, varint(y.clock))
            &&& prefix_at(b@, p2, enc_text(y.key))
            &&& prefix_at(b@, p3, enc_payload(y.payload))
            &&& varint(y.origin).len() <= 10
            &&& varint(y.clock).len() <= 10
        } by {
            let a = varint(y.origin);
            let c = varint(y.clock);
            let k = enc_text(y.key);
            let q = enc_payload(y.payload);
            lemma_prefix_split(b@, pos as int, a + c + k, q);
            lemma_prefix_split(b@, pos as int, a + c, k);
            lemma_prefix_split(b@, pos as int, a, c);
            lemma_varint_len_u64(y.origin);
            lemma_varint_len_u64(y.clock);
        }
    }
    let (origin, p1) = match read_varint(b, pos, 10) {
        Some(x) => x,
        None => return None,
    };
    let (clock, p2) = match read_varint(b, p1, 10) {
        Some(x) => x,
        None => return None,
    };
    let (key, p3) = match read_text(b, p2) {
        Some(x) => x,
        None => return None,
    };
    let (payload, p4) = match read_payload(b, p3, MAX_DEPTH) {
        Some(x) => x,
        None => return None,
    };
    let x = Block { origin, clock, key, payload };
    proof {
        let a = varint(origin);
        let c = varint(clock);
        let k = enc_text(x.key@);
        let q = enc_payload(x.payload@);
        lemma_prefix_split(b@, pos as int, a, c);
        lemma_prefix_split(b@, pos as int, a + c, k);
        lemma_prefix_split(b@, pos as int, a + c + k, q);
    }
    Some((x, p4))
}

proof fn lemma_entries_prefix(s: Seq<(u64, u64)>, i: int)
    requires
        0 <= i <= s.len(),
    ensures
        is_prefix(enc_entries(s.subrange(0, i)), enc_entries(s)),
    decreases s.len(),
{
    if i == s.len() {
        assert(s.subrange(0, i) =~= s);
        assert(enc_entries(s).subrange(0, enc_entries(s).len() as int) =~= enc_entries(s));
    } else {
        let d = s.drop_last();
        lemma_entries_prefix(d, i);
        assert(d.subrange(0, i) =~= s.subrange(0, i));
        let e = enc_entries(s.subrange(0, i));
        assert(enc_entries(s).subrange(0, e.len() as int) =~= enc_entries(d).subrange(0, e.len() as int));
    }
}

proof fn lemma_blocks_prefix(s: Seq<BlockV>, i: int)
    requires
        0 <= i <= s.len(),
    ensures
        is_prefix(enc_blocks(s.subrange(0, i)), enc_blocks(s)),
    decreases s.len(),
{
    if i == s.len() {
        assert(s.subrange(0, i) =~= s);
        assert(enc_blocks(s).subrange(0, enc_blocks(s).len() as int) =~= enc_blocks(s));
    } else {
        let d = s.drop_last();
        lemma_blocks_prefix(d, i);
        assert(d.subrange(0, i) =~= s.subrange(0, i));
        let e = enc_blocks(s.subrange(0, i));
        assert(enc_blocks(s).subrange(0, e.len() as int) =~= enc_blocks(d).subrange(0, e.len() as int));
    }
}




fn read_entries(b: &Vec<u8>, pos: usize, n: u64) -> (r: Option<(Vec<(u64, u64)>, usize)>)
    requires
        pos <= b@.len(),
    ensures
        r matches Some((es, p)) ==> es@.len() == n && sorted_ids(es@) && prefix_at(b@, pos as int, enc_entries(es@)) && p
            == pos + enc_entries(es@).len(),
        forall|es: Seq<(u64, u64)>|
            es.len() == n && sorted_ids(es) && #[trigger] prefix_at(b@, pos as int, enc_entries(es)) ==> (r matches Some((x, p))
                && x@ == es && p == pos + enc_entries(es).len()),
{
    let mut entries: Vec<(u64, u64)> = Vec::new();
    let mut cur: usize = pos;
    let mut i: u64 = 0;
    assert(b@.subrange(pos as int, pos as int) =~= enc_entries(entries@));
    while i < n
        invariant
            entries@.len() == i,
            i <= n,
            pos <= b@.len(),
            prefix_at(b@, pos as int, enc_entries(entries@)),
            cur == pos + enc_entries(entries@).len(),
            sorted_ids(entries@),
            forall|es: Seq<(u64, u64)>|
                es.len() == n && sorted_ids(es) && #[trigger] prefix_at(b@, pos as int, enc_entries(es)) ==> entries@
                    == es.subrange(0, i as int),
        decreases n - i,
    {
        proof {
            assert forall|pes: Seq<(u64, u64)>|
                pes.len() == n && sorted_ids(pes) && #[trigger] prefix_at(b@, pos as int, enc_entries(pes)) implies prefix_at(
                b@,
                cur as int,
                varint(pes[i as int].0),
            ) && varint(pes[i as int].0).len() <= 10 && prefix_at(
                b@,
                cur + varint(pes[i as int].0).len(),
                varint(pes[i as int].1),
            ) && varint(pes[i as int].1).len() <= 10 by {
                let e1 = pes.subrange(0, i + 1);
                assert(e1.drop_last() =~= entries@);
                lemma_entries_prefix(pes, i + 1);
                lemma_prefix_of_prefix(b@, pos as int, enc_entries(e1), enc_entries(pes));
                assert(enc_entries(e1) == enc_entries(entries@) + varint(pes[i as int].0) + varint(pes[i as int].1));
                lemma_prefix_split(b@, pos as int, enc_entries(entries@) + varint(pes[i as int].0), varint(pes[i as int].1));
                lemma_prefix_split(b@, pos as int, enc_entries(entries@), varint(pes[i as int].0));
                lemma_varint_len_u64(pes[i as int].0);
                lemma_varint_len_u64(pes[i as int].1);
            }
        }
        let (id, p1) = match read_varint(b, cur, 10) {
            Some(x) => x,
            None => return None,
        };
        let (c, p2) = match read_varint(b, p1, 10) {
            Some(x) => x,
            None => return None,
        };
        if entries.len() > 0 && id <= entries[entries.len() - 1].0 {
            proof {
                assert forall|pes: Seq<(u64, u64)>|
                    pes.len() == n && sorted_ids(pes) && #[trigger] prefix_at(b@, pos as int, enc_entries(pes)) implies false by {
                    assert(pes[i - 1] == entries@[i - 1]);
                    assert(pes[i - 1].0 < pes[i as int].0);
                }
            }
            return None;
        }
        let ghost before = entries@;
        entries.push((id, c));
        proof {
            assert(entries@.drop_last() =~= before);
            lemma_prefix_split(b@, pos as int, enc_entries(before), varint(id));
            lemma_prefix_split(b@, pos as int, enc_entries(before) + varint(id), varint(c));
            assert forall|pes: Seq<(u64, u64)>|
                pes.len() == n && sorted_ids(pes) && #[trigger] prefix_at(b@, pos as int, enc_entries(pes)) implies entries@
                == pes.subrange(0, i + 1) by {
                assert(entries@ =~= pes.subrange(0, i + 1));
            }
        }
        cur = p2;
        i = i + 1;
    }
    proof {
        assert forall|pes: Seq<(u64, u64)>|
            pes.len() == n && sorted_ids(pes) && #[trigger] prefix_at(b@, pos as int, enc_entries(pes)) implies entries@ == pes by {
            assert(entries@ =~= pes.subrange(0, i as int));
            assert(pes.subrange(0, i as int) =~= pes);
        }
    }
    Some((entries, cur))
}

#[verifier::rlimit(40)]
fn read_blocks(b: &Vec<u8>, pos: usize, m: u64) -> (r: Option<(Vec<Block>, usize)>)
    requires
        pos <= b@.len(),
    ensures
        r matches Some((bs, p)) ==> bs@.len() == m && canonical(views(bs@)) && prefix_at(b@, pos as int, enc_blocks(views(bs@)))
            && p == pos + enc_blocks(views(bs@)).len(),
        forall|bs: Seq<BlockV>|
            bs.len() == m && canonical(bs) && payloads_fit(bs) && #[trigger] prefix_at(b@, pos as int, enc_blocks(bs)) ==> (r matches Some((x, p))
                && views(x@) == bs && p == pos + enc_blocks(bs).len()),
{
    let mut blocks: Vec<Block> = Vec::new();
    let mut cur: usize = pos;
    let mut j: u64 = 0;
    assert(b@.subrange(pos as int, pos as int) =~= enc_blocks(views(blocks@)));
    while j < m
        invariant
            blocks@.len() == j,
            j <= m,
            pos <= b@.len(),
            prefix_at(b@, pos as int, enc_blocks(views(blocks@))),
            cur == pos + enc_blocks(views(blocks@)).len(),
            canonical(views(blocks@)),
            forall|bs: Seq<BlockV>|
                bs.len() == m && canonical(bs) && payloads_fit(bs) && #[trigger] prefix_at(b@, pos as int, enc_blocks(bs)) ==> views(blocks@)
                    == bs.subrange(0, j as int),
        decreases m - j,
    {
        let ghost vb = views(blocks@);
        proof {
            assert forall|pbs: Seq<BlockV>|
                pbs.len() == m && canonical(pbs) && payloads_fit(pbs) && #[trigger] prefix_at(b@, pos as int, enc_blocks(pbs)) implies prefix_at(
                b@,
                cur as int,
                enc_block(pbs[j as int]),
            ) && fits(pbs[j as int].payload, MAX_DEPTH as nat) by {
                let e1 = pbs.subrange(0, j + 1);
                assert(e1.drop_last() =~= vb);
                lemma_blocks_prefix(pbs, j + 1);
                lemma_prefix_of_prefix(b@, pos as int, enc_blocks(e1), enc_blocks(pbs));
                assert(enc_blocks(e1) == enc_blocks(vb) + enc_block(pbs[j as int]));
                lemma_prefix_split(b@, pos as int, enc_blocks(vb), enc_block(pbs[j as int]));
            }
        }
        let (blk, p4) = match read_block(b, cur) {
            Some(x) => x,
            None => return None,
        };
        if blocks.len() > 0 {
            let last = &blocks[blocks.len() - 1];
            if !(last.origin < blk.origin || (last.origin == blk.origin && last.clock < u64::MAX
                && blk.clock == last.clock + 1)) {
                proof {
                    assert forall|pbs: Seq<BlockV>|
                        pbs.len() == m && canonical(pbs) && payloads_fit(pbs) && #[trigger] prefix_at(b@, pos as int, enc_blocks(pbs)) implies false by {
                        assert(pbs[j - 1] == vb[j - 1]);
                        assert(pbs[(j - 1) as int].origin < pbs[(j - 1) + 1].origin || (pbs[(j - 1) as int].origin
                            == pbs[(j - 1) + 1].origin && pbs[(j - 1) + 1].clock == pbs[(j - 1) as int].clock + 1));
                    }
                }
                return None;
            }
        }
        let ghost before = blocks@;
        blocks.push(blk);
        proof {
            let nb = views(blocks@);
            assert(nb.drop_last() =~= vb);
            assert(nb.last() == blocks@.last()@);
            lemma_prefix_split(b@, pos as int, enc_blocks(vb), enc_block(nb.last()));
            assert(canonical(nb)) by {
                assert forall|k: int| 0 <= k < nb.len() - 1 implies ((#[trigger] nb[k]).origin < nb[k + 1].origin || (nb[k].origin
                    == nb[k + 1].origin && nb[k + 1].clock == nb[k].clock + 1)) by {
                    if k < nb.len() - 2 {
                        assert(nb[k] == vb[k] && nb[k + 1] == vb[k + 1]);
                    } else {
                        assert(nb[k] == before[k]@);
                    }
                }
            }
            assert forall|pbs: Seq<BlockV>|
                pbs.len() == m && canonical(pbs) && payloads_fit(pbs) && #[trigger] prefix_at(b@, pos as int, enc_blocks(pbs)) implies nb == pbs.subrange(
                0,
                j + 1,
            ) by {
                assert(nb =~= pbs.subrange(0, j + 1));
            }
        }
        cur = p4;
        j = j + 1;
    }
    proof {
        assert forall|pbs: Seq<BlockV>|
            pbs.len() == m && canonical(pbs) && payloads_fit(pbs) && #[trigger] prefix_at(b@, pos as int, enc_blocks(pbs)) implies views(blocks@) == pbs by {
            assert(pbs.subrange(0, j as int) =~= pbs);
        }
    }
    Some((blocks, cur))
}

/// A well-formed update: blocks in canonical order, state vector sorted,
/// both lists short enough to count in 64 bits.
pub open spec fn valid_update(bs: Seq<BlockV>, es: Seq<(u64, u64)>) -> bool {
    canonical(bs) && sorted_ids(es) && bs.len() <= u64::MAX && es.len() <= u64::MAX
}

/// Every payload nests at most `MAX_DEPTH` deep.
pub open spec fn payloads_fit(bs: Seq<BlockV>) -> bool {
    forall|k: int| 0 <= k < bs.len() ==> fits(#[trigger] bs[k].payload, MAX_DEPTH as nat)
}

/// Reads an update. Succeeds only on the encoding of a well-formed update,
/// and on every such encoding whose payloads nest at most `MAX_DEPTH` deep.
#[verifier::rlimit(100)]
pub fn decode(b: &Vec<u8>) -> (r: Result<Update, SyncError>)
    ensures
        r matches Ok(u) ==> b@ == enc_update(views(u.blocks@), u.sv.entries@) && valid_update(
            views(u.blocks@),
            u.sv.entries@,
        ),
        r matches Err(e) ==> e is MalformedUpdate,
        forall|bs: Seq<BlockV>, es: Seq<(u64, u64)>|
            valid_update(bs, es) && payloads_fit(bs) && b@ == #[trigger] enc_update(bs, es) ==> (r matches Ok(u) && views(u.blocks@) == bs
                && u.sv.entries@ == es),
{
    let ghost v0 = seq![FORMAT_VERSION];
    proof {
        assert forall|pbs: Seq<BlockV>, pes: Seq<(u64, u64)>| valid_update(pbs, pes) && payloads_fit(pbs) && b@ == #[trigger] enc_update(pbs, pes) implies {
            let vl = varint(pes.len() as u64);
            let e = enc_entries(pes);
            let vm = varint(pbs.len() as u64);
            &&& b@.len() > 0 && b@[0] == FORMAT_VERSION
            &&& prefix_at(b@, 1, vl) && vl.len() <= 10
            &&& prefix_at(b@, 1 + vl.len() as int, e)
            &&& prefix_at(b@, 1 + vl.len() + e.len() as int, vm) && vm.len() <= 10
            &&& prefix_at(b@, 1 + vl.len() + e.len() + vm.len() as int, enc_blocks(pbs))
            &&& b@.len() == 1 + vl.len() + e.len() + vm.len() + enc_blocks(pbs).len()
        } by {
            let vl = varint(pes.len() as u64);
            let e = enc_entries(pes);
            let vm = varint(pbs.len() as u64);
            let bb = enc_blocks(pbs);
            assert(b@.subrange(0, b@.len() as int) =~= b@);
            assert(prefix_at(b@, 0, v0 + vl + e + vm + bb));
            lemma_prefix_split(b@, 0, v0 + vl + e + vm, bb);
            lemma_prefix_split(b@, 0, v0 + vl + e, vm);
            lemma_prefix_split(b@, 0, v0 + vl, e);
            lemma_prefix_split(b@, 0, v0, vl);
            lemma_varint_len_u64(pes.len() as u64);
            lemma_varint_len_u64(pbs.len() as u64);
            assert(b@[0] == b@.subrange(0, 1)[0]);
        }
    }
    if b.len() == 0 || b[0] != FORMAT_VERSION {
        return Err(SyncError::MalformedUpdate);
    }
    assert(b@.subrange(0, 1) =~= v0);
    let (n, p1) = match read_varint(b, 1, 10) {
        Some(x) => x,
        None => return Err(SyncError::MalformedUpdate),
    };
    let (entries, p2) = match read_entries(b, p1, n) {
        Some(x) => x,
        None => return Err(SyncError::MalformedUpdate),
    };
    let (m, p3) = match read_varint(b, p2, 10) {
        Some(x) => x,
        None => return Err(SyncError::MalformedUpdate),
    };
    let (blocks, p4) = match read_blocks(b, p3, m) {
        Some(x) => x,
        None => return Err(SyncError::MalformedUpdate),
    };
    if p4 != b.len() {
        return Err(SyncError::MalformedUpdate);
    }
    proof {
        let vl = varint(n);
        let e = enc_entries(entries@);
        let vm = varint(m);
        let bb = enc_blocks(views(blocks@));
        lemma_prefix_split(b@, 0, v0, vl);
        lemma_prefix_split(b@, 0, v0 + vl, e);
        lemma_prefix_split(b@, 0, v0 + vl + e, vm);
        lemma_prefix_split(b@, 0, v0 + vl + e + vm, bb);
        assert(b@ =~= v0 + vl + e + vm + bb) by {
            assert(b@.subrange(0, b@.len() as int) =~= b@);
        }
        assert(views(blocks@).len() == blocks@.len());
    }
    Ok(Update { blocks, sv: StateVector { entries } })
}

} // verus!
