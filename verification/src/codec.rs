use vstd::prelude::*;
use vstd::assert_seqs_equal;

use crate::color::MyColor;
use crate::error::MosaicError;
use crate::index::{entries_model, ColorIndex, Entry, IndexModel, TileRef};

verus! {

/// The eight little-endian bytes of a length or count.
pub open spec fn le8(n: u64) -> Seq<u8> {
    seq![
        n as u8,
        (n >> 8) as u8,
        (n >> 16) as u8,
        (n >> 24) as u8,
        (n >> 32) as u8,
        (n >> 40) as u8,
        (n >> 48) as u8,
        (n >> 56) as u8,
    ]
}

/// The value the eight little-endian bytes carry.
pub open spec fn u64_of_bytes(
    b0: u8,
    b1: u8,
    b2: u8,
    b3: u8,
    b4: u8,
    b5: u8,
    b6: u8,
    b7: u8,
) -> u64 {
    (b0 as u64) | ((b1 as u64) << 8) | ((b2 as u64) << 16) | ((b3 as u64) << 24) | ((
    b4 as u64) << 32) | ((b5 as u64) << 40) | ((b6 as u64) << 48) | ((b7 as u64) << 56)
}

proof fn lemma_le8_roundtrip(n: u64)
    ensures
        u64_of_bytes(
            le8(n)[0],
            le8(n)[1],
            le8(n)[2],
            le8(n)[3],
            le8(n)[4],
            le8(n)[5],
            le8(n)[6],
            le8(n)[7],
        ) == n,
{
    assert(((n as u8) as u64) | ((((n >> 8) as u8) as u64) << 8) | ((((n >> 16) as u8) as u64)
        << 16) | ((((n >> 24) as u8) as u64) << 24) | ((((n >> 32) as u8) as u64) << 32) | ((((n
        >> 40) as u8) as u64) << 40) | ((((n >> 48) as u8) as u64) << 48) | ((((n
        >> 56) as u8) as u64) << 56) == n) by (bit_vector);
}

/// One persisted tile handle: its byte length, then its path bytes.
pub open spec fn enc_ref(p: Seq<u8>) -> Seq<u8> {
    le8(p.len() as u64) + p
}

/// A run of persisted tile handles, in order.
pub open spec fn enc_refs(rs: Seq<Seq<u8>>) -> Seq<u8>
    decreases rs.len(),
{
    if rs.len() == 0 {
        Seq::empty()
    } else {
        enc_ref(rs[0]) + enc_refs(rs.skip(1))
    }
}

/// One persisted entry: the three channel bytes of its color, its tile
/// count, then its tiles.
pub open spec fn enc_entry(e: (MyColor, Seq<Seq<u8>>)) -> Seq<u8> {
    seq![e.0.r, e.0.g, e.0.b] + le8(e.1.len() as u64) + enc_refs(e.1)
}

/// A run of persisted entries, in index order.
pub open spec fn enc_entries(m: IndexModel) -> Seq<u8>
    decreases m.len(),
{
    if m.len() == 0 {
        Seq::empty()
    } else {
        enc_entry(m[0]) + enc_entries(m.skip(1))
    }
}

/// The whole persisted artifact: the entry count, then the entries. The
/// encoding preserves insertion order exactly, so a decoded index is
/// entry-wise equal to the encoded one.
pub open spec fn spec_encode(m: IndexModel) -> Seq<u8> {
    le8(m.len() as u64) + enc_entries(m)
}

/// Read a count. Fails on a truncated artifact.
pub open spec fn parse_u64(b: Seq<u8>) -> Option<(u64, Seq<u8>)> {
    if b.len() < 8 {
        None
    } else {
        Some((u64_of_bytes(b[0], b[1], b[2], b[3], b[4], b[5], b[6], b[7]), b.skip(8)))
    }
}

/// Read one tile handle. Fails on a truncated artifact.
pub open spec fn parse_ref(b: Seq<u8>) -> Option<(Seq<u8>, Seq<u8>)> {
    match parse_u64(b) {
        None => None,
        Some((len, rest)) => if rest.len() < len {
            None
        } else {
            Some((rest.take(len as int), rest.skip(len as int)))
        },
    }
}

/// Read `n` tile handles.
pub open spec fn parse_refs(b: Seq<u8>, n: nat) -> Option<(Seq<Seq<u8>>, Seq<u8>)>
    decreases n,
{
    if n == 0 {
        Some((Seq::empty(), b))
    } else {
        match parse_ref(b) {
            None => None,
            Some((p, rest)) => match parse_refs(rest, (n - 1) as nat) {
                None => None,
                Some((ps, rest2)) => Some((seq![p] + ps, rest2)),
            },
        }
    }
}

/// Read one entry. An entry with zero tiles is refused: a key exists only
/// alongside its first tile.
pub open spec fn parse_entry(b: Seq<u8>) -> Option<((MyColor, Seq<Seq<u8>>), Seq<u8>)> {
    if b.len() < 3 {
        None
    } else {
        let c = MyColor { r: b[0], g: b[1], b: b[2] };
        match parse_u64(b.skip(3)) {
            None => None,
            Some((cnt, rest)) => if cnt == 0 {
                None
            } else {
                match parse_refs(rest, cnt as nat) {
                    None => None,
                    Some((ps, rest2)) => Some(((c, ps), rest2)),
                }
            },
        }
    }
}

/// Read `n` entries.
pub open spec fn parse_entries(b: Seq<u8>, n: nat) -> Option<(IndexModel, Seq<u8>)>
    decreases n,
{
    if n == 0 {
        Some((Seq::empty(), b))
    } else {
        match parse_entry(b) {
            None => None,
            Some((e, rest)) => match parse_entries(rest, (n - 1) as nat) {
                None => None,
                Some((es, rest2)) => Some((seq![e] + es, rest2)),
            },
        }
    }
}

/// Pairwise distinct keys: what a decoded artifact must satisfy to be a
/// sound index.
pub open spec fn model_distinct(m: IndexModel) -> bool {
    forall|i: int, j: int| 0 <= i < j < m.len() ==> (#[trigger] m[i]).0 != (#[trigger] m[j]).0
}

/// What decoding an artifact yields: the encoded model, exactly, when the
/// bytes are a whole, untruncated artifact with at least one entry, no
/// trailing garbage, no empty entry and no repeated key; nothing otherwise.
pub open spec fn spec_decode(b: Seq<u8>) -> Option<IndexModel> {
    match parse_u64(b) {
        None => None,
        Some((n, rest)) => if n == 0 {
            None
        } else {
            match parse_entries(rest, n as nat) {
                None => None,
                Some((m, rest2)) => if rest2.len() == 0 && model_distinct(m) {
                    Some(m)
                } else {
                    None
                },
            }
        },
    }
}

proof fn lemma_parse_le8(n: u64, rest: Seq<u8>)
    ensures
        parse_u64(le8(n) + rest) == Some((n, rest)),
{
    let b = le8(n) + rest;
    lemma_le8_roundtrip(n);
    assert(b[0] == le8(n)[0] && b[1] == le8(n)[1] && b[2] == le8(n)[2] && b[3] == le8(n)[3] && b[4]
        == le8(n)[4] && b[5] == le8(n)[5] && b[6] == le8(n)[6] && b[7] == le8(n)[7]);
    assert_seqs_equal!(b.skip(8) == rest);
}

proof fn lemma_parse_ref(p: Seq<u8>, rest: Seq<u8>)
    requires
        p.len() <= u64::MAX,
    ensures
        parse_ref(enc_ref(p) + rest) == Some((p, rest)),
{
    let b = enc_ref(p) + rest;
    assert_seqs_equal!(b == le8(p.len() as u64) + (p + rest));
    lemma_parse_le8(p.len() as u64, p + rest);
    assert_seqs_equal!((p + rest).take(p.len() as int) == p);
    assert_seqs_equal!((p + rest).skip(p.len() as int) == rest);
}

proof fn lemma_parse_refs(rs: Seq<Seq<u8>>, rest: Seq<u8>)
    requires
        forall|i: int| 0 <= i < rs.len() ==> (#[trigger] rs[i]).len() <= u64::MAX,
    ensures
        parse_refs(enc_refs(rs) + rest, rs.len()) == Some((rs, rest)),
    decreases rs.len(),
{
    if rs.len() == 0 {
        assert_seqs_equal!(enc_refs(rs) + rest == rest);
        assert_seqs_equal!(rs == Seq::<Seq<u8>>::empty());
    } else {
        let tail = rs.skip(1);
        assert_seqs_equal!(enc_refs(rs) + rest == enc_ref(rs[0]) + (enc_refs(tail) + rest));
        lemma_parse_ref(rs[0], enc_refs(tail) + rest);
        assert(forall|i: int| 0 <= i < tail.len() ==> #[trigger] tail[i] == rs[i + 1]);
        lemma_parse_refs(tail, rest);
        assert_seqs_equal!(seq![rs[0]] + tail == rs);
    }
}

proof fn lemma_parse_entry(e: (MyColor, Seq<Seq<u8>>), rest: Seq<u8>)
    requires
        e.1.len() > 0,
        e.1.len() <= u64::MAX,
        forall|i: int| 0 <= i < e.1.len() ==> (#[trigger] e.1[i]).len() <= u64::MAX,
    ensures
        parse_entry(enc_entry(e) + rest) == Some((e, rest)),
{
    let b = enc_entry(e) + rest;
    assert(b[0] == e.0.r && b[1] == e.0.g && b[2] == e.0.b);
    assert_seqs_equal!(b.skip(3) == le8(e.1.len() as u64) + (enc_refs(e.1) + rest));
    lemma_parse_le8(e.1.len() as u64, enc_refs(e.1) + rest);
    lemma_parse_refs(e.1, rest);
    assert(e.0 == (MyColor { r: b[0], g: b[1], b: b[2] }));
}

proof fn lemma_parse_entries(m: IndexModel, rest: Seq<u8>)
    requires
        forall|k: int| 0 <= k < m.len() ==> (#[trigger] m[k]).1.len() > 0,
        forall|k: int| 0 <= k < m.len() ==> (#[trigger] m[k]).1.len() <= u64::MAX,
        forall|k: int, i: int|
            0 <= k < m.len() && 0 <= i < m[k].1.len() ==> (#[trigger] m[k].1[i]).len()
                <= u64::MAX,
    ensures
        parse_entries(enc_entries(m) + rest, m.len()) == Some((m, rest)),
    decreases m.len(),
{
    if m.len() == 0 {
        assert_seqs_equal!(enc_entries(m) + rest == rest);
        assert_seqs_equal!(m == Seq::<(MyColor, Seq<Seq<u8>>)>::empty());
    } else {
        let tail = m.skip(1);
        assert_seqs_equal!(enc_entries(m) + rest == enc_entry(m[0]) + (enc_entries(tail) + rest));
        lemma_parse_entry(m[0], enc_entries(tail) + rest);
        assert(forall|k: int| 0 <= k < tail.len() ==> #[trigger] tail[k] == m[k + 1]);
        lemma_parse_entries(tail, rest);
        assert_seqs_equal!(seq![m[0]] + tail == m);
    }
}

/// Persistence is lossless: decoding an encoded index yields the index
/// back, entry for entry and tile for tile, in the same order. The size
/// bounds state only that every count fits the encoding's eight bytes,
/// which any in-memory index satisfies.
pub proof fn lemma_codec_round_trip(m: IndexModel)
    requires
        m.len() > 0,
        m.len() <= u64::MAX,
        model_distinct(m),
        forall|k: int| 0 <= k < m.len() ==> (#[trigger] m[k]).1.len() > 0,
        forall|k: int| 0 <= k < m.len() ==> (#[trigger] m[k]).1.len() <= u64::MAX,
        forall|k: int, i: int|
            0 <= k < m.len() && 0 <= i < m[k].1.len() ==> (#[trigger] m[k].1[i]).len()
                <= u64::MAX,
    ensures
        spec_decode(spec_encode(m)) == Some(m),
{
    assert_seqs_equal!(spec_encode(m) == le8(m.len() as u64) + (enc_entries(m) + Seq::empty()));
    lemma_parse_le8(m.len() as u64, enc_entries(m) + Seq::empty());
    lemma_parse_entries(m, Seq::empty());
}

/// Append the eight little-endian bytes of `n`.
fn push_u64(out: &mut Vec<u8>, n: u64)
    ensures
        final(out)@ == old(out)@ + le8(n),
{
    out.push(n as u8);
    out.push((n >> 8) as u8);
    out.push((n >> 16) as u8);
    out.push((n >> 24) as u8);
    out.push((n >> 32) as u8);
    out.push((n >> 40) as u8);
    out.push((n >> 48) as u8);
    out.push((n >> 56) as u8);
    proof {
        assert_seqs_equal!(out@ == old(out)@ + le8(n));
    }
}

proof fn lemma_enc_refs_snoc(a: Seq<Seq<u8>>, x: Seq<u8>)
    ensures
        enc_refs(a.push(x)) == enc_refs(a) + enc_ref(x),
    decreases a.len(),
{
    if a.len() == 0 {
        assert_seqs_equal!(a.push(x).skip(1) == Seq::<Seq<u8>>::empty());
        assert(a.push(x)[0] == x);
        assert(enc_refs(a.push(x).skip(1)) == Seq::<u8>::empty());
        assert(enc_refs(a.push(x)) == enc_ref(x) + enc_refs(a.push(x).skip(1)));
        assert(enc_refs(a) == Seq::<u8>::empty());
        assert_seqs_equal!(enc_refs(a.push(x)) == enc_refs(a) + enc_ref(x));
    } else {
        assert_seqs_equal!(a.push(x).skip(1) == a.skip(1).push(x));
        lemma_enc_refs_snoc(a.skip(1), x);
        assert(a.push(x)[0] == a[0]);
        assert(enc_refs(a.push(x)) == enc_ref(a[0]) + (enc_refs(a.skip(1)) + enc_ref(x)));
        vstd::seq_lib::lemma_concat_associative(enc_ref(a[0]), enc_refs(a.skip(1)), enc_ref(x));
    }
}

proof fn lemma_enc_entries_snoc(m: IndexModel, e: (MyColor, Seq<Seq<u8>>))
    ensures
        enc_entries(m.push(e)) == enc_entries(m) + enc_entry(e),
    decreases m.len(),
{
    if m.len() == 0 {
        assert_seqs_equal!(m.push(e).skip(1) == Seq::<(MyColor, Seq<Seq<u8>>)>::empty());
        assert(m.push(e)[0] == e);
        assert(enc_entries(m.push(e).skip(1)) == Seq::<u8>::empty());
        assert(enc_entries(m.push(e)) == enc_entry(e) + enc_entries(m.push(e).skip(1)));
        assert(enc_entries(m) == Seq::<u8>::empty());
        assert_seqs_equal!(enc_entries(m.push(e)) == enc_entries(m) + enc_entry(e));
    } else {
        assert_seqs_equal!(m.push(e).skip(1) == m.skip(1).push(e));
        lemma_enc_entries_snoc(m.skip(1), e);
        assert(m.push(e)[0] == m[0]);
        assert(enc_entries(m.push(e)) == enc_entry(m[0]) + (enc_entries(m.skip(1)) + enc_entry(
            e,
        )));
        vstd::seq_lib::lemma_concat_associative(
            enc_entry(m[0]),
            enc_entries(m.skip(1)),
            enc_entry(e),
        );
    }
}

/// Persist the index: a self-describing artifact holding the whole mapping,
/// keys in their insertion order and each key's tiles in theirs.
pub fn encode(ix: &ColorIndex) -> (out: Vec<u8>)
    ensures
        out@ == spec_encode(ix.model()),
{
    let ghost m = ix.model();
    let ne = ix.entries.len();
    let mut out: Vec<u8> = Vec::new();
    push_u64(&mut out, ne as u64);
    proof {
        assert_seqs_equal!(m.take(0) == Seq::<(MyColor, Seq<Seq<u8>>)>::empty());
        assert_seqs_equal!(out@ == le8(ne as u64) + enc_entries(m.take(0)));
    }
    for i in 0..ne
        invariant
            ne == ix.entries@.len(),
            m == ix.model(),
            m.len() == ne,
            out@ == le8(ne as u64) + enc_entries(m.take(i as int)),
    {
        let ghost outer = out@;
        let nr = ix.entries[i].refs.len();
        out.push(ix.entries[i].color.r);
        out.push(ix.entries[i].color.g);
        out.push(ix.entries[i].color.b);
        push_u64(&mut out, nr as u64);
        proof {
            assert(m[i as int] == (ix.entries@[i as int].color, ix.entries@[i as int].refs@.map(
                |j: int, t: TileRef| t.path@,
            )));
            assert(m[i as int].1.len() == nr);
            assert_seqs_equal!(m[i as int].1.take(0) == Seq::<Seq<u8>>::empty());
            assert_seqs_equal!(out@ == outer
                + seq![m[i as int].0.r, m[i as int].0.g, m[i as int].0.b] + le8(nr as u64)
                + enc_refs(m[i as int].1.take(0)));
        }
        for j in 0..nr
            invariant
                ne == ix.entries@.len(),
                m == ix.model(),
                m.len() == ne,
                i < ne,
                nr == ix.entries@[i as int].refs@.len(),
                m[i as int].1.len() == nr,
                m[i as int].1 == ix.entries@[i as int].refs@.map(|j: int, t: TileRef| t.path@),
                out@ == outer + seq![m[i as int].0.r, m[i as int].0.g, m[i as int].0.b] + le8(
                    nr as u64,
                ) + enc_refs(m[i as int].1.take(j as int)),
        {
            let ghost mid = out@;
            let np = ix.entries[i].refs[j].path.len();
            push_u64(&mut out, np as u64);
            let ghost pb = ix.entries@[i as int].refs@[j as int].path@;
            proof {
                assert(m[i as int].1[j as int] == pb);
            }
            for b in 0..np
                invariant
                    ne == ix.entries@.len(),
                    i < ne,
                    nr == ix.entries@[i as int].refs@.len(),
                    j < nr,
                    np == ix.entries@[i as int].refs@[j as int].path@.len(),
                    pb == ix.entries@[i as int].refs@[j as int].path@,
                    out@ == mid + le8(np as u64) + pb.take(b as int),
            {
                out.push(ix.entries[i].refs[j].path[b]);
                proof {
                    assert_seqs_equal!(pb.take(b + 1) == pb.take(b as int).push(pb[b as int]));
                    assert_seqs_equal!(out@ == mid + le8(np as u64) + pb.take(b + 1));
                }
            }
            proof {
                assert_seqs_equal!(pb.take(np as int) == pb);
                lemma_enc_refs_snoc(m[i as int].1.take(j as int), pb);
                assert_seqs_equal!(m[i as int].1.take(j + 1) == m[i as int].1.take(
                    j as int).push(pb));
                assert_seqs_equal!(out@ == outer
                    + seq![m[i as int].0.r, m[i as int].0.g, m[i as int].0.b] + le8(nr as u64)
                    + enc_refs(m[i as int].1.take(j + 1)));
            }
        }
        proof {
            assert_seqs_equal!(m[i as int].1.take(nr as int) == m[i as int].1);
            lemma_enc_entries_snoc(m.take(i as int), m[i as int]);
            assert_seqs_equal!(m.take(i + 1) == m.take(i as int).push(m[i as int]));
            assert_seqs_equal!(out@ == le8(ne as u64) + enc_entries(m.take(i + 1)));
        }
    }
    proof {
        assert_seqs_equal!(m.take(ne as int) == m);
    }
    out
}

/// Eight little-endian bytes read at `pos`, as the spec parser reads them.
fn read_u64(bytes: &Vec<u8>, pos: usize) -> (r: Option<(u64, usize)>)
    requires
        pos <= bytes@.len(),
    ensures
        match r {
            Some(t) => {
                &&& parse_u64(bytes@.skip(pos as int)) == Some((t.0, bytes@.skip(t.1 as int)))
                &&& pos < t.1 <= bytes@.len()
            },
            None => parse_u64(bytes@.skip(pos as int)) is None,
        },
{
    let n = bytes.len();
    if n - pos < 8 {
        return None;
    }
    let v: u64 = (bytes[pos] as u64) | ((bytes[pos + 1] as u64) << 8u64) | ((bytes[pos
        + 2] as u64) << 16u64) | ((bytes[pos + 3] as u64) << 24u64) | ((bytes[pos
        + 4] as u64) << 32u64) | ((bytes[pos + 5] as u64) << 40u64) | ((bytes[pos
        + 6] as u64) << 48u64) | ((bytes[pos + 7] as u64) << 56u64);
    proof {
        let b = bytes@.skip(pos as int);
        assert(b[0] == bytes@[pos as int] && b[1] == bytes@[pos as int + 1] && b[2] == bytes@[
            pos as int + 2] && b[3] == bytes@[pos as int + 3] && b[4] == bytes@[pos as int + 4]
            && b[5] == bytes@[pos as int + 5] && b[6] == bytes@[pos as int + 6] && b[7] == bytes@[
            pos as int + 7]);
        assert_seqs_equal!(b.skip(8) == bytes@.skip(pos as int + 8));
    }
    Some((v, pos + 8))
}

/// One tile handle read at `pos`, as the spec parser reads it.
fn read_ref(bytes: &Vec<u8>, pos: usize) -> (r: Option<(TileRef, usize)>)
    requires
        pos <= bytes@.len(),
    ensures
        match r {
            Some(t) => {
                &&& parse_ref(bytes@.skip(pos as int)) == Some(
                    (t.0.path@, bytes@.skip(t.1 as int)),
                )
                &&& pos < t.1 <= bytes@.len()
            },
            None => parse_ref(bytes@.skip(pos as int)) is None,
        },
{
    let (len64, p1) = match read_u64(bytes, pos) {
        None => {
            return None;
        },
        Some(t) => t,
    };
    let n = bytes.len();
    if ((n - p1) as u64) < len64 {
        return None;
    }
    let l: usize = len64 as usize;
    let mut path: Vec<u8> = Vec::new();
    for i in 0..l
        invariant
            p1 + l <= bytes@.len(),
            bytes@.len() <= usize::MAX,
            path@.len() == i,
            forall|k: int| 0 <= k < i ==> #[trigger] path@[k] == bytes@[p1 + k],
    {
        path.push(bytes[p1 + i]);
    }
    proof {
        let rest = bytes@.skip(p1 as int);
        assert_seqs_equal!(path@ == rest.take(len64 as int));
        assert_seqs_equal!(rest.skip(len64 as int) == bytes@.skip(p1 as int + len64 as int));
    }
    Some((TileRef { path }, p1 + l))
}

/// `cnt` tile handles read at `pos`, as the spec parser reads them.
fn read_refs(bytes: &Vec<u8>, pos: usize, cnt: u64) -> (r: Option<(Vec<TileRef>, usize)>)
    requires
        pos <= bytes@.len(),
    ensures
        match r {
            Some(t) => {
                &&& parse_refs(bytes@.skip(pos as int), cnt as nat) == Some(
                    (t.0@.map(|i: int, tr: TileRef| tr.path@), bytes@.skip(t.1 as int)),
                )
                &&& pos <= t.1 <= bytes@.len()
                &&& t.0@.len() == cnt
            },
            None => parse_refs(bytes@.skip(pos as int), cnt as nat) is None,
        },
    decreases cnt,
{
    if cnt == 0 {
        let v: Vec<TileRef> = Vec::new();
        proof {
            assert_seqs_equal!(v@.map(|i: int, tr: TileRef| tr.path@)
                == Seq::<Seq<u8>>::empty());
        }
        return Some((v, pos));
    }
    let (tr, p1) = match read_ref(bytes, pos) {
        None => {
            return None;
        },
        Some(t) => t,
    };
    let (mut vs, p2) = match read_refs(bytes, p1, cnt - 1) {
        None => {
            return None;
        },
        Some(t) => t,
    };
    let ghost vs0 = vs@;
    let ghost trg = tr;
    vs.insert(0, tr);
    proof {
        assert_seqs_equal!(vs@.map(|i: int, tr: TileRef| tr.path@) == seq![trg.path@]
            + vs0.map(|i: int, tr: TileRef| tr.path@));
    }
    Some((vs, p2))
}

/// One entry read at `pos`, as the spec parser reads it.
fn read_entry(bytes: &Vec<u8>, pos: usize) -> (r: Option<(Entry, usize)>)
    requires
        pos <= bytes@.len(),
    ensures
        match r {
            Some(t) => {
                &&& parse_entry(bytes@.skip(pos as int)) == Some(
                    (
                        (t.0.color, t.0.refs@.map(|i: int, tr: TileRef| tr.path@)),
                        bytes@.skip(t.1 as int),
                    ),
                )
                &&& pos < t.1 <= bytes@.len()
                &&& t.0.refs@.len() > 0
            },
            None => parse_entry(bytes@.skip(pos as int)) is None,
        },
{
    let n = bytes.len();
    if n - pos < 3 {
        return None;
    }
    let color = MyColor { r: bytes[pos], g: bytes[pos + 1], b: bytes[pos + 2] };
    proof {
        let b = bytes@.skip(pos as int);
        assert(b[0] == bytes@[pos as int] && b[1] == bytes@[pos as int + 1] && b[2] == bytes@[
            pos as int + 2]);
        assert_seqs_equal!(b.skip(3) == bytes@.skip(pos as int + 3));
    }
    let (cnt, p1) = match read_u64(bytes, pos + 3) {
        None => {
            return None;
        },
        Some(t) => t,
    };
    if cnt == 0 {
        return None;
    }
    let (refs, p2) = match read_refs(bytes, p1, cnt) {
        None => {
            return None;
        },
        Some(t) => t,
    };
    Some((Entry { color, refs }, p2))
}

/// `cnt` entries read at `pos`, as the spec parser reads them.
fn read_entries(bytes: &Vec<u8>, pos: usize, cnt: u64) -> (r: Option<(Vec<Entry>, usize)>)
    requires
        pos <= bytes@.len(),
    ensures
        match r {
            Some(t) => {
                &&& parse_entries(bytes@.skip(pos as int), cnt as nat) == Some(
                    (entries_model(t.0@), bytes@.skip(t.1 as int)),
                )
                &&& pos <= t.1 <= bytes@.len()
                &&& t.0@.len() == cnt
                &&& forall|k: int| 0 <= k < t.0@.len() ==> (#[trigger] t.0@[k]).refs@.len() > 0
            },
            None => parse_entries(bytes@.skip(pos as int), cnt as nat) is None,
        },
    decreases cnt,
{
    if cnt == 0 {
        let v: Vec<Entry> = Vec::new();
        proof {
            assert_seqs_equal!(entries_model(v@) == Seq::<(MyColor, Seq<Seq<u8>>)>::empty());
        }
        return Some((v, pos));
    }
    let (e, p1) = match read_entry(bytes, pos) {
        None => {
            return None;
        },
        Some(t) => t,
    };
    let (mut vs, p2) = match read_entries(bytes, p1, cnt - 1) {
        None => {
            return None;
        },
        Some(t) => t,
    };
    let ghost vs0 = vs@;
    let ghost eg = e;
    vs.insert(0, e);
    proof {
        assert_seqs_equal!(entries_model(vs@) == seq![(eg.color, eg.refs@.map(|i: int, tr: TileRef| tr.path@))]
            + entries_model(vs0));
    }
    Some((vs, p2))
}

/// Load a persisted index. Succeeds exactly on a whole artifact carrying a
/// sound index — at least one entry, every entry with a tile, no repeated
/// key, no missing and no trailing bytes — and then returns that index,
/// entry for entry; any truncated, oversized or unsound artifact fails with
/// `PersistenceError`, so a caller can fall back to rebuilding.
pub fn decode(bytes: &Vec<u8>) -> (r: Result<ColorIndex, MosaicError>)
    ensures
        match r {
            Ok(ix) => {
                &&& spec_decode(bytes@) == Some(ix.model())
                &&& ix.wf()
            },
            Err(e) => {
                &&& e == MosaicError::PersistenceError
                &&& spec_decode(bytes@) is None
            },
        },
{
    proof {
        assert_seqs_equal!(bytes@.skip(0) == bytes@);
    }
    let (n64, p1) = match read_u64(bytes, 0) {
        None => {
            return Err(MosaicError::PersistenceError);
        },
        Some(t) => t,
    };
    if n64 == 0 {
        return Err(MosaicError::PersistenceError);
    }
    let (entries, p2) = match read_entries(bytes, p1, n64) {
        None => {
            return Err(MosaicError::PersistenceError);
        },
        Some(t) => t,
    };
    if p2 != bytes.len() {
        return Err(MosaicError::PersistenceError);
    }
    let ix = ColorIndex { entries };
    let ghost m = ix.model();
    let ne = ix.entries.len();
    for i in 0..ne
        invariant
            ne == ix.entries@.len(),
            m == ix.model(),
            m.len() == ne,
            spec_decode(bytes@) == (if model_distinct(m) {
                Some(m)
            } else {
                None
            }),
            forall|a: int, b: int|
                0 <= a < b < i ==> (#[trigger] m[a]).0 != (#[trigger] m[b]).0,
    {
        for j in 0..i
            invariant
                ne == ix.entries@.len(),
                m == ix.model(),
                m.len() == ne,
                i < ne,
                spec_decode(bytes@) == (if model_distinct(m) {
                    Some(m)
                } else {
                    None
                }),
                forall|a: int, b: int|
                    0 <= a < b < i ==> (#[trigger] m[a]).0 != (#[trigger] m[b]).0,
                forall|a: int| 0 <= a < j ==> (#[trigger] m[a]).0 != m[i as int].0,
        {
            if ix.entries[j].color == ix.entries[i].color {
                proof {
                    assert(m[j as int].0 == m[i as int].0);
                    assert(!model_distinct(m));
                }
                return Err(MosaicError::PersistenceError);
            }
        }
    }
    proof {
        assert(model_distinct(m));
        assert forall|a: int, b: int| 0 <= a < b < ix.entries@.len() implies ix.entries@[a].color
            != ix.entries@[b].color by {
            assert(m[a].0 == ix.entries@[a].color);
            assert(m[b].0 == ix.entries@[b].color);
        }
        assert forall|a: int| 0 <= a < ix.entries@.len() implies #[trigger] ix.entries@[
            a].refs@.len() > 0 by {}
        assert(ix.wf());
    }
    Ok(ix)
}

} // verus!
