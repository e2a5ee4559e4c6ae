//! A byte codec for palettes, so a built palette can be kept and reloaded
//! without rebuilding it from the candidate tiles. The format is
//! little-endian and length-prefixed:
//!   [entry count: u32] then per entry
//!   [tile id length: u32][tile id bytes][r: u32][g: u32][b: u32][a: u32]
//! Decoding checks the framing, that the count is nonzero, and that every
//! channel is a well-formed fixed-point value; round-tripping preserves
//! entry order, tile identifiers and colors exactly.

use vstd::prelude::*;
use crate::color::{Color, SCALE};
use crate::palette::{Entry, Palette, nearest_idx, entry_dist};

verus! {

/// What one entry holds, as plain values: the tile identifier bytes and the
/// representative color.
pub open spec fn entry_view(e: Entry) -> (Seq<u8>, Color) {
    (e.tile@, e.color)
}

/// The entries of a palette as plain values, in order.
pub open spec fn views_of(s: Seq<Entry>) -> Seq<(Seq<u8>, Color)> {
    s.map_values(|e: Entry| (e.tile@, e.color))
}

/// The four little-endian bytes of a 32-bit value.
pub open spec fn enc_u32(v: u32) -> Seq<u8> {
    seq![
        (v % 256) as u8,
        ((v / 256) % 256) as u8,
        ((v / 65536) % 256) as u8,
        ((v / 16777216) % 256) as u8,
    ]
}

/// The 32-bit value of the four little-endian bytes at `pos`.
pub open spec fn dec_u32_at(s: Seq<u8>, pos: int) -> int
    recommends
        0 <= pos,
        pos + 4 <= s.len(),
{
    s[pos] + 256 * s[pos + 1] + 65536 * s[pos + 2] + 16777216 * s[pos + 3]
}

/// The encoding of one entry.
pub open spec fn enc_entry(e: (Seq<u8>, Color)) -> Seq<u8> {
    enc_u32(e.0.len() as u32) + e.0 + enc_u32(e.1.r) + enc_u32(e.1.g) + enc_u32(e.1.b) + enc_u32(
        e.1.a,
    )
}

/// The encoding of a sequence of entries, in order.
pub open spec fn enc_entries(s: Seq<(Seq<u8>, Color)>) -> Seq<u8>
    decreases s.len(),
{
    if s.len() == 0 {
        Seq::empty()
    } else {
        enc_entry(s[0]) + enc_entries(s.drop_first())
    }
}

/// The encoding of a whole palette: entry count, then the entries.
pub open spec fn spec_encode(s: Seq<(Seq<u8>, Color)>) -> Seq<u8> {
    enc_u32(s.len() as u32) + enc_entries(s)
}

/// Parses `k` entries of `s` starting at `pos`: the entries and the
/// position after them, or nothing if the bytes do not hold `k` well-formed
/// entries.
pub open spec fn dec_entries(s: Seq<u8>, pos: int, k: nat) -> Option<(Seq<(Seq<u8>, Color)>, int)>
    decreases k,
{
    if k == 0 {
        Some((Seq::empty(), pos))
    } else if pos + 4 > s.len() {
        None
    } else {
        let tl = dec_u32_at(s, pos);
        if pos + 4 + tl + 16 > s.len() {
            None
        } else {
            let tile = s.subrange(pos + 4, pos + 4 + tl);
            let p2 = pos + 4 + tl;
            let r = dec_u32_at(s, p2);
            let g = dec_u32_at(s, p2 + 4);
            let b = dec_u32_at(s, p2 + 8);
            let a = dec_u32_at(s, p2 + 12);
            if r > SCALE || g > SCALE || b > SCALE || a > SCALE {
                None
            } else {
                let ev = (tile, Color { r: r as u32, g: g as u32, b: b as u32, a: a as u32 });
                match dec_entries(s, p2 + 16, (k - 1) as nat) {
                    Some(t) => Some((seq![ev] + t.0, t.1)),
                    None => None,
                }
            }
        }
    }
}

/// Parses a whole palette: the count must be nonzero and the bytes must be
/// consumed exactly.
pub open spec fn spec_decode(s: Seq<u8>) -> Option<Seq<(Seq<u8>, Color)>> {
    if s.len() < 4 {
        None
    } else {
        let n = dec_u32_at(s, 0);
        if n == 0 {
            None
        } else {
            match dec_entries(s, 4, n as nat) {
                Some(t) => if t.1 == s.len() {
                    Some(t.0)
                } else {
                    None
                },
                None => None,
            }
        }
    }
}

/// Reading back the four little-endian bytes of `v` gives `v`.
proof fn lemma_u32_round_trip(v: u32)
    ensures
        (v % 256) + 256 * ((v / 256) % 256) + 65536 * ((v / 65536) % 256) + 16777216 * ((v
            / 16777216) % 256) == v,
{
    assert((v % 256) + 256 * ((v / 256) % 256) + 65536 * ((v / 65536) % 256) + 16777216 * ((v
        / 16777216) % 256) == v) by (bit_vector);
}

/// Appends the four little-endian bytes of `v`.
fn push_u32(out: &mut Vec<u8>, v: u32)
    ensures
        final(out)@ == old(out)@ + enc_u32(v),
{
    out.push((v % 256) as u8);
    out.push(((v / 256) % 256) as u8);
    out.push(((v / 65536) % 256) as u8);
    out.push(((v / 16777216) % 256) as u8);
    proof {
        assert(out@ =~= old(out)@ + enc_u32(v));
    }
}

/// Reads the 32-bit value of the four little-endian bytes at `pos`.
fn read_u32(bytes: &Vec<u8>, pos: usize) -> (v: u32)
    requires
        pos + 4 <= bytes@.len(),
    ensures
        v == dec_u32_at(bytes@, pos as int),
{
    let n = bytes.len();
    bytes[pos] as u32 + 256 * (bytes[pos + 1] as u32) + 65536 * (bytes[pos + 2] as u32) + 16777216
        * (bytes[pos + 3] as u32)
}

/// Appending one entry to a sequence appends its encoding to the bytes.
#[verifier::rlimit(50)]
proof fn lemma_enc_entries_push(s: Seq<(Seq<u8>, Color)>, e: (Seq<u8>, Color))
    ensures
        enc_entries(s.push(e)) == enc_entries(s) + enc_entry(e),
    decreases s.len(),
{
    if s.len() == 0 {
        assert(s.push(e)[0] == e);
        assert(s.push(e).drop_first() =~= Seq::<(Seq<u8>, Color)>::empty());
        assert(enc_entries(Seq::<(Seq<u8>, Color)>::empty()) == Seq::<u8>::empty());
        assert(enc_entries(s.push(e)) == enc_entry(e) + enc_entries(
            Seq::<(Seq<u8>, Color)>::empty(),
        ));
        assert(enc_entries(s.push(e)) =~= enc_entries(s) + enc_entry(e));
    } else {
        lemma_enc_entries_push(s.drop_first(), e);
        assert(s.push(e).drop_first() =~= s.drop_first().push(e));
        assert(s.push(e)[0] == s[0]);
        assert(enc_entries(s.push(e)) == enc_entry(s[0]) + enc_entries(s.drop_first().push(e)));
        assert(enc_entry(s[0]) + (enc_entries(s.drop_first()) + enc_entry(e)) =~= (enc_entry(s[0])
            + enc_entries(s.drop_first())) + enc_entry(e));
    }
}

impl Palette {
    /// Serializes the palette. The identifiers and entry count must fit the
    /// 32-bit length prefixes of the format.
    pub fn encode(&self) -> (out: Vec<u8>)
        requires
            self.wf(),
            self.items@.len() <= u32::MAX,
            forall|i: int| 0 <= i < self.items@.len() ==> (#[trigger] self.items@[i]).tile@.len()
                <= u32::MAX,
        ensures
            out@ == spec_encode(views_of(self.items@)),
    {
        let vs = Ghost(views_of(self.items@));
        let mut out: Vec<u8> = Vec::new();
        let n = self.items.len();
        push_u32(&mut out, n as u32);
        proof {
            assert(vs@.take(0) =~= Seq::<(Seq<u8>, Color)>::empty());
            assert(out@ =~= enc_u32(vs@.len() as u32) + enc_entries(vs@.take(0)));
        }
        for i in 0..n
            invariant
                n == self.items@.len(),
                vs@ == views_of(self.items@),
                vs@.len() == n,
                self.wf(),
                forall|j: int| 0 <= j < n ==> (#[trigger] self.items@[j]).tile@.len() <= u32::MAX,
                out@ == enc_u32(vs@.len() as u32) + enc_entries(vs@.take(i as int)),
        {
            let ghost base = out@;
            let e = &self.items[i];
            push_u32(&mut out, e.tile.len() as u32);
            let tn = e.tile.len();
            let ghost tile_base = out@;
            for j in 0..tn
                invariant
                    tn == e.tile@.len(),
                    out@ == tile_base + e.tile@.take(j as int),
                decreases tn - j,
            {
                out.push(e.tile[j]);
                proof {
                    assert(out@ =~= tile_base + e.tile@.take(j + 1));
                }
            }
            push_u32(&mut out, e.color.r);
            push_u32(&mut out, e.color.g);
            push_u32(&mut out, e.color.b);
            push_u32(&mut out, e.color.a);
            proof {
                assert(e.tile@.take(tn as int) =~= e.tile@);
                assert(out@ =~= base + enc_entry(vs@[i as int]));
                lemma_enc_entries_push(vs@.take(i as int), vs@[i as int]);
                assert(vs@.take(i as int).push(vs@[i as int]) =~= vs@.take(i + 1));
                assert(out@ =~= enc_u32(vs@.len() as u32) + enc_entries(vs@.take(i + 1)));
            }
        }
        proof {
            assert(vs@.take(n as int) =~= vs@);
        }
        out
    }

    /// Deserializes a palette. Returns the palette exactly as encoded, or
    /// nothing if the bytes are not a well-formed encoding.
    pub fn decode(bytes: &Vec<u8>) -> (r: Option<Palette>)
        ensures
            match r {
                Some(p) => spec_decode(bytes@) == Some(views_of(p.items@)) && p.wf(),
                None => spec_decode(bytes@) is None,
            },
    {
        let s = Ghost(bytes@);
        if bytes.len() < 4 {
            return None;
        }
        let n = read_u32(bytes, 0);
        if n == 0 {
            return None;
        }
        let mut pos: usize = 4;
        let mut items: Vec<Entry> = Vec::new();
        let mut i: u32 = 0;
        proof {
            assert(views_of(items@) =~= Seq::<(Seq<u8>, Color)>::empty());
            assert(dec_entries(s@, 4, n as nat) == combine(
                views_of(items@),
                dec_entries(s@, pos as int, (n - i) as nat),
            ));
        }
        while i < n
            invariant
                s@ == bytes@,
                s@.len() >= 4,
                n == dec_u32_at(s@, 0),
                n > 0,
                i <= n,
                4 <= pos <= s@.len(),
                items@.len() == i,
                forall|j: int| 0 <= j < items@.len() ==> (#[trigger] items@[j]).color.wf(),
                dec_entries(s@, 4, n as nat) == combine(
                    views_of(items@),
                    dec_entries(s@, pos as int, (n - i) as nat),
                ),
            decreases n - i,
        {
            let ghost k = (n - i) as nat;
            if bytes.len() - pos < 4 {
                proof {
                    lemma_combine_none(views_of(items@));
                }
                return None;
            }
            let tl32 = read_u32(bytes, pos);
            let tl = tl32 as usize;
            if bytes.len() - (pos + 4) < tl {
                proof {
                    lemma_combine_none(views_of(items@));
                }
                return None;
            }
            if bytes.len() - (pos + 4 + tl) < 16 {
                proof {
                    lemma_combine_none(views_of(items@));
                }
                return None;
            }
            let mut tile: Vec<u8> = Vec::new();
            let tile_start = pos + 4;
            let blen = bytes.len();
            for j in 0..tl
                invariant
                    s@ == bytes@,
                    s@.len() == blen,
                    tile_start + tl <= s@.len(),
                    tile@.len() == j,
                    tile@ == s@.subrange(tile_start as int, tile_start + j),
                decreases tl - j,
            {
                tile.push(bytes[tile_start + j]);
                proof {
                    assert(tile@ =~= s@.subrange(tile_start as int, tile_start + j + 1));
                }
            }
            let p2 = pos + 4 + tl;
            let cr = read_u32(bytes, p2);
            let cg = read_u32(bytes, p2 + 4);
            let cb = read_u32(bytes, p2 + 8);
            let ca = read_u32(bytes, p2 + 12);
            if cr > SCALE || cg > SCALE || cb > SCALE || ca > SCALE {
                proof {
                    lemma_combine_none(views_of(items@));
                }
                return None;
            }
            let color = Color { r: cr, g: cg, b: cb, a: ca };
            let ghost ev = (tile@, color);
            proof {
                assert(dec_entries(s@, pos as int, k) == combine(
                    seq![ev],
                    dec_entries(s@, p2 + 16, (k - 1) as nat),
                ));
                lemma_combine_assoc(views_of(items@), seq![ev], dec_entries(s@, p2 + 16, (k - 1) as nat));
            }
            items.push(Entry { tile, color });
            pos = p2 + 16;
            i = i + 1;
            proof {
                assert(views_of(items@) =~= views_of(old_items(items@)) + seq![ev]) by {
                    assert(items@.drop_last().push(items@.last()) =~= items@);
                }
                assert(views_of(items@.drop_last()).push(entry_view(items@.last())) =~= views_of(
                    items@,
                ));
                assert(views_of(items@.drop_last()) + seq![ev] =~= views_of(items@));
            }
        }
        if pos != bytes.len() {
            proof {
                let t = dec_entries(s@, pos as int, 0);
                assert(t == Some((Seq::<(Seq<u8>, Color)>::empty(), pos as int)));
                assert(views_of(items@) + Seq::<(Seq<u8>, Color)>::empty() =~= views_of(items@));
            }
            return None;
        }
        proof {
            assert(views_of(items@) + Seq::<(Seq<u8>, Color)>::empty() =~= views_of(items@));
            assert(spec_decode(s@) == Some(views_of(items@)));
        }
        Some(Palette { items })
    }
}

/// Four bytes of `s` that hold the encoding of `v` read back as `v`.
proof fn lemma_dec_enc_u32_at(s: Seq<u8>, pos: int, v: u32)
    requires
        0 <= pos,
        pos + 4 <= s.len(),
        s.subrange(pos, pos + 4) == enc_u32(v),
    ensures
        dec_u32_at(s, pos) == v,
{
    assert(s[pos] == enc_u32(v)[0] && s[pos + 1] == enc_u32(v)[1] && s[pos + 2] == enc_u32(v)[2]
        && s[pos + 3] == enc_u32(v)[3]) by {
        assert(forall|i: int|
            0 <= i < 4 ==> s.subrange(pos, pos + 4)[i] == #[trigger] s[pos + i]);
    }
    lemma_u32_round_trip(v);
}

/// The fields of one encoded entry, read back from a buffer that holds its
/// encoding after a prefix.
#[verifier::rlimit(100)]
#[verifier::spinoff_prover]
proof fn lemma_enc_entry_at(s: Seq<u8>, pre: Seq<u8>, e: (Seq<u8>, Color), suf: Seq<u8>)
    requires
        s == pre + enc_entry(e) + suf,
        e.0.len() <= u32::MAX,
    ensures
        enc_entry(e).len() == 20 + e.0.len(),
        dec_u32_at(s, pre.len() as int) == e.0.len(),
        s.subrange(pre.len() as int + 4, pre.len() as int + 4 + e.0.len() as int) == e.0,
        dec_u32_at(s, pre.len() + 4 + e.0.len() as int) == e.1.r,
        dec_u32_at(s, pre.len() + 8 + e.0.len() as int) == e.1.g,
        dec_u32_at(s, pre.len() + 12 + e.0.len() as int) == e.1.b,
        dec_u32_at(s, pre.len() + 16 + e.0.len() as int) == e.1.a,
{
    let eb = enc_entry(e);
    let tl = e.0.len() as int;
    let lv = e.0.len() as u32;
    let pos = pre.len() as int;
    let p2 = pos + 4 + tl;
    assert(enc_u32(lv).len() == 4);
    assert(enc_u32(e.1.r).len() == 4);
    assert(enc_u32(e.1.g).len() == 4);
    assert(enc_u32(e.1.b).len() == 4);
    assert(enc_u32(e.1.a).len() == 4);
    assert(eb == enc_u32(lv) + e.0 + enc_u32(e.1.r) + enc_u32(e.1.g) + enc_u32(e.1.b) + enc_u32(
        e.1.a,
    ));
    assert(eb.len() == 20 + tl);
    assert(s.len() == pre.len() + eb.len() + suf.len());
    assert(s.subrange(pos, pos + 4) =~= enc_u32(lv));
    lemma_dec_enc_u32_at(s, pos, lv);
    assert(s.subrange(pos + 4, pos + 4 + tl) =~= e.0);
    assert(s.subrange(p2, p2 + 4) =~= enc_u32(e.1.r));
    assert(s.subrange(p2 + 4, p2 + 8) =~= enc_u32(e.1.g));
    assert(s.subrange(p2 + 8, p2 + 12) =~= enc_u32(e.1.b));
    assert(s.subrange(p2 + 12, p2 + 16) =~= enc_u32(e.1.a));
    lemma_dec_enc_u32_at(s, p2, e.1.r);
    lemma_dec_enc_u32_at(s, p2 + 4, e.1.g);
    lemma_dec_enc_u32_at(s, p2 + 8, e.1.b);
    lemma_dec_enc_u32_at(s, p2 + 12, e.1.a);
}

/// Parsing the encoding of `vs`, laid down after any prefix, returns `vs`
/// itself and consumes the bytes exactly.
#[verifier::rlimit(100)]
proof fn lemma_dec_entries_of_enc(pre: Seq<u8>, vs: Seq<(Seq<u8>, Color)>)
    requires
        forall|j: int|
            0 <= j < vs.len() ==> (#[trigger] vs[j]).0.len() <= u32::MAX && vs[j].1.wf(),
    ensures
        dec_entries(pre + enc_entries(vs), pre.len() as int, vs.len() as nat) == Some(
            (vs, (pre + enc_entries(vs)).len() as int),
        ),
    decreases vs.len(),
{
    if vs.len() == 0 {
        assert(pre + enc_entries(vs) =~= pre);
        assert(vs =~= Seq::<(Seq<u8>, Color)>::empty());
    } else {
        let e = vs[0];
        let rest = vs.drop_first();
        let eb = enc_entry(e);
        let s = pre + enc_entries(vs);
        let pos = pre.len() as int;
        let tl = e.0.len() as int;
        let lv = e.0.len() as u32;
        assert(lv == tl);
        assert(enc_entries(vs) == eb + enc_entries(rest));
        assert(eb.len() == 20 + tl);
        let pre2 = pre + eb;
        assert(s =~= pre2 + enc_entries(rest));
        assert(forall|j: int|
            0 <= j < rest.len() ==> (#[trigger] rest[j]).0.len() <= u32::MAX && rest[j].1.wf());
        lemma_dec_entries_of_enc(pre2, rest);
        assert(s =~= pre + enc_entry(e) + enc_entries(rest));
        lemma_enc_entry_at(s, pre, e, enc_entries(rest));
        let p2 = pos + 4 + tl;
        assert(p2 + 16 == pos + eb.len());
        assert(p2 + 16 <= s.len());
        assert(Color { r: e.1.r, g: e.1.g, b: e.1.b, a: e.1.a } == e.1);
        assert(seq![e] + rest =~= vs);
        assert(dec_entries(s, pos, vs.len() as nat) == Some((vs, s.len() as int)));
    }
}

/// Round trip: decoding an encoded palette returns exactly the encoded
/// entries — same order, same tile identifiers, same colors.
pub proof fn lemma_codec_round_trip(vs: Seq<(Seq<u8>, Color)>)
    requires
        1 <= vs.len() <= u32::MAX,
        forall|j: int|
            0 <= j < vs.len() ==> (#[trigger] vs[j]).0.len() <= u32::MAX && vs[j].1.wf(),
    ensures
        spec_decode(spec_encode(vs)) == Some(vs),
{
    let n = vs.len() as u32;
    let s = spec_encode(vs);
    assert(s == enc_u32(n) + enc_entries(vs));
    assert(s.subrange(0, 4) =~= enc_u32(n)) by {
        assert(forall|i: int| 0 <= i < 4 ==> #[trigger] s[i] == enc_u32(n)[i]);
    }
    lemma_dec_enc_u32_at(s, 0, n);
    lemma_dec_entries_of_enc(enc_u32(n), vs);
}

/// Two palettes whose entries hold the same plain values answer every
/// nearest-match query with the same index: a decoded palette matches
/// exactly like the one that was encoded.
pub proof fn lemma_same_views_same_nearest(s1: Seq<Entry>, s2: Seq<Entry>, c: Color)
    requires
        views_of(s1) == views_of(s2),
    ensures
        nearest_idx(s1, c) == nearest_idx(s2, c),
    decreases s1.len(),
{
    assert(s1.len() == s2.len()) by {
        assert(views_of(s1).len() == s1.len());
        assert(views_of(s2).len() == s2.len());
    }
    assert forall|j: int| 0 <= j < s1.len() implies (#[trigger] s1[j]).color == s2[j].color by {
        assert(views_of(s1)[j] == (s1[j].tile@, s1[j].color));
        assert(views_of(s2)[j] == (s2[j].tile@, s2[j].color));
    }
    if s1.len() > 1 {
        assert forall|j: int| 0 <= j < s1.len() - 1 implies views_of(s1.drop_last())[j]
            == views_of(s2.drop_last())[j] by {
            assert(s1.drop_last()[j] == s1[j]);
            assert(s2.drop_last()[j] == s2[j]);
            assert(views_of(s1)[j] == views_of(s2)[j]);
        }
        assert(views_of(s1.drop_last()) =~= views_of(s2.drop_last()));
        lemma_same_views_same_nearest(s1.drop_last(), s2.drop_last(), c);
        assert(entry_dist(s1, s1.len() - 1, c) == entry_dist(s2, s2.len() - 1, c));
        let r = nearest_idx(s1.drop_last(), c);
        crate::palette::lemma_nearest_idx_minimal(s1.drop_last(), c);
        assert(entry_dist(s1, r, c) == entry_dist(s2, r, c));
    }
}

/// Ghost helper naming the items before the last push.
pub open spec fn old_items(s: Seq<Entry>) -> Seq<Entry> {
    s.drop_last()
}

/// Prefixes parsed so far, composed with the outcome of the rest.
pub open spec fn combine(
    prefix: Seq<(Seq<u8>, Color)>,
    rest: Option<(Seq<(Seq<u8>, Color)>, int)>,
) -> Option<(Seq<(Seq<u8>, Color)>, int)> {
    match rest {
        Some(t) => Some((prefix + t.0, t.1)),
        None => None,
    }
}

/// Composing with a failed rest fails.
proof fn lemma_combine_none(prefix: Seq<(Seq<u8>, Color)>)
    ensures
        combine(prefix, None) is None,
{
}

/// Composition of parsed prefixes is associative.
proof fn lemma_combine_assoc(
    a: Seq<(Seq<u8>, Color)>,
    b: Seq<(Seq<u8>, Color)>,
    rest: Option<(Seq<(Seq<u8>, Color)>, int)>,
)
    ensures
        combine(a, combine(b, rest)) == combine(a + b, rest),
{
    match rest {
        Some(t) => {
            assert(a + (b + t.0) =~= (a + b) + t.0);
        },
        None => {},
    }
}

} // verus!
