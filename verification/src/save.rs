//! The game-state codec: the exact field order and bit widths that make up
//! one persisted snapshot — grid occupancy, basket contents, score, elapsed
//! play time, a version marker and an optional per-cell color block — and
//! the conversion between such a snapshot and one encoded string.
use vstd::prelude::*;

verus! {

use vstd::arithmetic::power2::pow2;
use vstd::arithmetic::power2::lemma2_to64;
use vstd::arithmetic::power2::lemma2_to64_rest;
use crate::alphabet::is_symbol;
use crate::bits::bits_of;
use crate::bits::val_of;
use crate::bits::lemma_val_of_bound;
use crate::bits::lemma_val_of_bits_of;
use crate::codec::Encoder;
use crate::codec::Decoder;
use crate::codec::encoded_of;
use crate::codec::str_bits;

/// Bits per basket slot: a figure identifier, zero meaning an empty slot.
pub const FIGURE_BITS: u8 = 5;

/// Bits for the score field.
pub const SCORE_BITS: u8 = 32;

/// Bits for the elapsed-seconds field.
pub const TIME_BITS: u8 = 64;

/// Bits for the version marker field.
pub const MARKER_BITS: u8 = 5;

/// The reserved marker value that signals the extended format with the
/// trailing color block.
pub const EXTENDED_MARKER: u8 = 0b10101;

/// Bits for the color-override count and for each palette index.
pub const COLOR_BITS: u8 = 8;

/// Bits for each coordinate of a color override.
pub const POS_BITS: u8 = 4;

/// One entry of the optional color block: a cell position and the palette
/// index of the color it carries.
#[derive(Clone, Copy, PartialEq, Eq, Structural, Debug)]
pub struct ColorOverride {
    pub x: u8,
    pub y: u8,
    pub color: u8,
}

/// The two wire layouts, told apart by the version marker: the legacy
/// format ends after the marker; the extended format carries the color
/// block behind it.
#[derive(Clone, Copy, PartialEq, Eq, Structural, Debug)]
pub enum FormatVersion {
    Legacy,
    Extended,
}

/// Why a decode failed. Every failure is local and recoverable: a caller
/// treats any of these as "no valid saved state".
#[derive(Clone, Copy, PartialEq, Eq, Structural, Debug)]
pub enum DecodeError {
    /// A character of the input is outside the 64-symbol alphabet.
    BadCharacter,
    /// Fewer bits remain than a declared field needs.
    Truncated,
    /// A basket slot names a figure identifier beyond the known catalog.
    UnknownFigure,
}

/// One resumable game instant, as plain values: grid occupancy in row-major
/// order, one figure identifier per basket slot (zero for empty), the score,
/// the elapsed play time in seconds, and the per-cell color overrides.
#[derive(Debug, PartialEq, Eq)]
pub struct Snapshot {
    pub width: u8,
    pub height: u8,
    pub cells: Vec<bool>,
    pub baskets: Vec<u8>,
    pub score: u32,
    pub elapsed: u64,
    pub colors: Vec<ColorOverride>,
}

/// The mathematical value of a snapshot.
pub ghost struct SnapshotModel {
    pub width: u8,
    pub height: u8,
    pub cells: Seq<bool>,
    pub baskets: Seq<u8>,
    pub score: u32,
    pub elapsed: u64,
    pub colors: Seq<ColorOverride>,
}

impl View for Snapshot {
    type V = SnapshotModel;

    open spec fn view(&self) -> SnapshotModel {
        SnapshotModel {
            width: self.width,
            height: self.height,
            cells: self.cells@,
            baskets: self.baskets@,
            score: self.score,
            elapsed: self.elapsed,
            colors: self.colors@,
        }
    }
}

impl SnapshotModel {
    /// A snapshot that the wire format can carry exactly: one occupancy bit
    /// per grid cell, figure identifiers within their five bits, at most one
    /// count byte of overrides, and override positions within their four
    /// bits.
    pub open spec fn wf(self) -> bool {
        &&& self.cells.len() == self.width as int * self.height as int
        &&& forall|i: int| 0 <= i < self.baskets.len() ==> (#[trigger] self.baskets[i]) < 32
        &&& self.colors.len() <= 255
        &&& forall|i: int|
            0 <= i < self.colors.len() ==> (#[trigger] self.colors[i]).x < 16
                && self.colors[i].y < 16
    }
}

/// The marker value that each layout writes.
pub open spec fn marker_value(v: FormatVersion) -> nat {
    match v {
        FormatVersion::Legacy => 0,
        FormatVersion::Extended => EXTENDED_MARKER as nat,
    }
}

/// The bits of all basket slots, in slot order, five bits each.
pub open spec fn baskets_bits(bs: Seq<u8>) -> Seq<bool>
    decreases bs.len(),
{
    if bs.len() == 0 {
        Seq::empty()
    } else {
        bits_of(bs[0] as nat, FIGURE_BITS as nat) + baskets_bits(bs.drop_first())
    }
}

/// The sixteen bits of one color override: row, column, palette index.
pub open spec fn override_bits(o: ColorOverride) -> Seq<bool> {
    bits_of(o.x as nat, POS_BITS as nat) + bits_of(o.y as nat, POS_BITS as nat) + bits_of(
        o.color as nat,
        COLOR_BITS as nat,
    )
}

/// The bits of the whole override list, in list order.
pub open spec fn overrides_bits(os: Seq<ColorOverride>) -> Seq<bool>
    decreases os.len(),
{
    if os.len() == 0 {
        Seq::empty()
    } else {
        override_bits(os[0]) + overrides_bits(os.drop_first())
    }
}

/// What follows the marker: nothing in the legacy layout, the counted
/// override list in the extended one.
pub open spec fn trailer_bits(m: SnapshotModel, v: FormatVersion) -> Seq<bool> {
    match v {
        FormatVersion::Legacy => Seq::empty(),
        FormatVersion::Extended => bits_of(m.colors.len(), COLOR_BITS as nat) + overrides_bits(
            m.colors,
        ),
    }
}

/// The complete wire bit sequence of a snapshot. This order is the format:
/// occupancy bits row-major, basket slots, score, elapsed seconds, the
/// version marker, then the optional trailer.
pub open spec fn snapshot_bits(m: SnapshotModel, v: FormatVersion) -> Seq<bool> {
    m.cells + baskets_bits(m.baskets) + bits_of(m.score as nat, SCORE_BITS as nat) + bits_of(
        m.elapsed as nat,
        TIME_BITS as nat,
    ) + bits_of(marker_value(v), MARKER_BITS as nat) + trailer_bits(m, v)
}

/// Splitting the last slot off a basket sequence.
proof fn lemma_baskets_bits_snoc(bs: Seq<u8>)
    requires
        bs.len() > 0,
    ensures
        baskets_bits(bs) =~= baskets_bits(bs.drop_last()) + bits_of(
            bs.last() as nat,
            FIGURE_BITS as nat,
        ),
    decreases bs.len(),
{
    let w = FIGURE_BITS as nat;
    if bs.len() == 1 {
        assert(bs.drop_first().len() == 0);
        assert(bs.drop_last().len() == 0);
        assert(bs[0] == bs.last());
        assert(baskets_bits(bs) == bits_of(bs[0] as nat, w) + baskets_bits(bs.drop_first()));
        assert(baskets_bits(bs.drop_first()) == Seq::<bool>::empty());
        assert(baskets_bits(bs.drop_last()) == Seq::<bool>::empty());
    } else {
        let head = bits_of(bs[0] as nat, w);
        let tail = bs.drop_first();
        lemma_baskets_bits_snoc(tail);
        assert(tail.drop_last() =~= bs.drop_last().drop_first());
        assert(tail.last() == bs.last());
        assert(bs.drop_last()[0] == bs[0]);
        assert(bs.drop_last().len() > 0);
        assert(baskets_bits(bs.drop_last()) == bits_of(bs.drop_last()[0] as nat, w) + baskets_bits(
            bs.drop_last().drop_first(),
        ));
        assert(baskets_bits(bs) == head + baskets_bits(tail));
        assert(baskets_bits(tail) == baskets_bits(tail.drop_last()) + bits_of(
            tail.last() as nat,
            w,
        ));
        assert(head + (baskets_bits(tail.drop_last()) + bits_of(tail.last() as nat, w)) =~= (head
            + baskets_bits(tail.drop_last())) + bits_of(tail.last() as nat, w));
    }
}

/// Splitting the last entry off an override list.
proof fn lemma_overrides_bits_snoc(os: Seq<ColorOverride>)
    requires
        os.len() > 0,
    ensures
        overrides_bits(os) =~= overrides_bits(os.drop_last()) + override_bits(os.last()),
    decreases os.len(),
{
    if os.len() == 1 {
        assert(os.drop_first().len() == 0);
        assert(os.drop_last().len() == 0);
        assert(os[0] == os.last());
        assert(overrides_bits(os) == override_bits(os[0]) + overrides_bits(os.drop_first()));
        assert(overrides_bits(os.drop_first()) == Seq::<bool>::empty());
        assert(overrides_bits(os.drop_last()) == Seq::<bool>::empty());
    } else {
        let head = override_bits(os[0]);
        let tail = os.drop_first();
        lemma_overrides_bits_snoc(tail);
        assert(tail.drop_last() =~= os.drop_last().drop_first());
        assert(tail.last() == os.last());
        assert(os.drop_last()[0] == os[0]);
        assert(os.drop_last().len() > 0);
        assert(overrides_bits(os.drop_last()) == override_bits(os.drop_last()[0])
            + overrides_bits(os.drop_last().drop_first()));
        assert(overrides_bits(os) == head + overrides_bits(tail));
        assert(overrides_bits(tail) == overrides_bits(tail.drop_last()) + override_bits(
            tail.last(),
        ));
        assert(head + (overrides_bits(tail.drop_last()) + override_bits(tail.last())) =~= (head
            + overrides_bits(tail.drop_last())) + override_bits(tail.last()));
    }
}

/// Reading the basket slots, in slot order. Each slot needs five bits and
/// must name either the empty slot or a figure within the catalog of `nf`
/// known figures; the first violation decides the error.
pub open spec fn parse_baskets(bits: Seq<bool>, off: nat, nb: nat, nf: u8) -> Result<
    Seq<u8>,
    DecodeError,
>
    decreases nb,
{
    if nb == 0 {
        Ok(Seq::empty())
    } else if bits.len() < off + FIGURE_BITS {
        Err(DecodeError::Truncated)
    } else {
        let id = val_of(bits.subrange(off as int, off as int + FIGURE_BITS));
        if id > nf as nat {
            Err(DecodeError::UnknownFigure)
        } else {
            match parse_baskets(bits, (off + FIGURE_BITS) as nat, (nb - 1) as nat, nf) {
                Ok(rest) => Ok(seq![id as u8] + rest),
                Err(e) => Err(e),
            }
        }
    }
}

/// Reading `cnt` color overrides, sixteen bits each.
pub open spec fn parse_overrides(bits: Seq<bool>, off: nat, cnt: nat) -> Result<
    Seq<ColorOverride>,
    DecodeError,
>
    decreases cnt,
{
    if cnt == 0 {
        Ok(Seq::empty())
    } else if bits.len() < off + 16 {
        Err(DecodeError::Truncated)
    } else {
        let x = val_of(bits.subrange(off as int, off as int + 4));
        let y = val_of(bits.subrange(off as int + 4, off as int + 8));
        let c = val_of(bits.subrange(off as int + 8, off as int + 16));
        match parse_overrides(bits, (off + 16) as nat, (cnt - 1) as nat) {
            Ok(rest) => Ok(seq![(ColorOverride { x: x as u8, y: y as u8, color: c as u8 })] + rest),
            Err(e) => Err(e),
        }
    }
}

/// What decoding a text must yield: the whole decode pipeline as one
/// mathematical function. Characters are checked against the alphabet
/// first; then the fields are read in format order; the single fork is the
/// version-marker check, which routes legacy payloads past the color block.
pub open spec fn spec_deserialize(cs: Seq<char>, width: u8, height: u8, nb: u8, nf: u8) -> Result<
    SnapshotModel,
    DecodeError,
> {
    if exists|i: int| 0 <= i < cs.len() && !is_symbol(cs[i]) {
        Err(DecodeError::BadCharacter)
    } else {
        let bits = str_bits(cs);
        let n0 = width as nat * height as nat;
        if bits.len() < n0 {
            Err(DecodeError::Truncated)
        } else {
            match parse_baskets(bits, n0, nb as nat, nf) {
                Err(e) => Err(e),
                Ok(baskets) => {
                    let o1 = n0 + FIGURE_BITS as nat * nb as nat;
                    if bits.len() < o1 + 32 {
                        Err(DecodeError::Truncated)
                    } else if bits.len() < o1 + 96 {
                        Err(DecodeError::Truncated)
                    } else if bits.len() < o1 + 101 {
                        Err(DecodeError::Truncated)
                    } else {
                        let score = val_of(bits.subrange(o1 as int, o1 as int + 32));
                        let elapsed = val_of(bits.subrange(o1 as int + 32, o1 as int + 96));
                        let marker = val_of(bits.subrange(o1 as int + 96, o1 as int + 101));
                        let base = SnapshotModel {
                            width,
                            height,
                            cells: bits.subrange(0, n0 as int),
                            baskets,
                            score: score as u32,
                            elapsed: elapsed as u64,
                            colors: Seq::empty(),
                        };
                        if marker != EXTENDED_MARKER as nat {
                            Ok(base)
                        } else if bits.len() < o1 + 109 {
                            Err(DecodeError::Truncated)
                        } else {
                            let cnt = val_of(bits.subrange(o1 as int + 101, o1 as int + 109));
                            match parse_overrides(bits, o1 + 109, cnt) {
                                Err(e) => Err(e),
                                Ok(ovs) => Ok(SnapshotModel { colors: ovs, ..base }),
                            }
                        }
                    }
                },
            }
        }
    }
}

/// Serializes one snapshot deterministically: the encoded text of its wire
/// bit sequence in the chosen layout.
pub fn serialize(snap: &Snapshot, version: FormatVersion) -> (r: String)
    requires
        snap@.wf(),
    ensures
        r@ == encoded_of(snapshot_bits(snap@, version)),
        r@.len() == (snapshot_bits(snap@, version).len() + 5) / 6,
{
    let ghost m = snap@;
    let ghost pre1 = m.cells;
    let ghost pre2 = pre1 + baskets_bits(m.baskets);
    let ghost pre3 = pre2 + bits_of(m.score as nat, SCORE_BITS as nat);
    let ghost pre4 = pre3 + bits_of(m.elapsed as nat, TIME_BITS as nat);
    let ghost pre5 = pre4 + bits_of(marker_value(version), MARKER_BITS as nat);
    let mut enc = Encoder::new();
    let mut i: usize = 0;
    while i < snap.cells.len()
        invariant
            enc.wf(),
            i <= snap.cells@.len(),
            m == snap@,
            enc.bits() =~= m.cells.take(i as int),
        decreases snap.cells@.len() - i,
    {
        let occupied = snap.cells[i];
        let ghost before = enc.bits();
        let _ = enc.push(
            if occupied {
                1
            } else {
                0
            },
            1,
        );
        proof {
            lemma2_to64();
            assert(bits_of(if occupied { 1nat } else { 0nat }, 1) =~= seq![occupied]);
            assert(m.cells.take(i + 1) =~= m.cells.take(i as int).push(m.cells[i as int]));
            assert(enc.bits() =~= m.cells.take(i + 1));
        }
        i = i + 1;
    }
    proof {
        assert(m.cells.take(m.cells.len() as int) =~= m.cells);
    }
    let mut j: usize = 0;
    while j < snap.baskets.len()
        invariant
            enc.wf(),
            j <= snap.baskets@.len(),
            m == snap@,
            enc.bits() =~= pre1 + baskets_bits(m.baskets.take(j as int)),
            pre1 == m.cells,
        decreases snap.baskets@.len() - j,
    {
        let id = snap.baskets[j];
        let _ = enc.push(id as u64, FIGURE_BITS);
        proof {
            let t = m.baskets.take(j + 1);
            assert(t.drop_last() =~= m.baskets.take(j as int));
            assert(t.last() == m.baskets[j as int]);
            lemma_baskets_bits_snoc(t);
            assert((pre1 + baskets_bits(m.baskets.take(j as int))) + bits_of(
                id as nat,
                FIGURE_BITS as nat,
            ) =~= pre1 + (baskets_bits(m.baskets.take(j as int)) + bits_of(
                id as nat,
                FIGURE_BITS as nat,
            )));
            assert(enc.bits() =~= pre1 + baskets_bits(t));
        }
        j = j + 1;
    }
    proof {
        assert(m.baskets.take(m.baskets.len() as int) =~= m.baskets);
        assert(enc.bits() =~= pre2);
    }
    let _ = enc.push(snap.score as u64, SCORE_BITS);
    let _ = enc.push(snap.elapsed, TIME_BITS);
    proof {
        assert(enc.bits() =~= pre4);
    }
    match version {
        FormatVersion::Legacy => {
            let _ = enc.push(0, MARKER_BITS);
            proof {
                assert(enc.bits() =~= pre5);
                assert(snapshot_bits(m, version) == pre5 + trailer_bits(m, version));
                assert(pre5 + Seq::<bool>::empty() =~= pre5);
            }
        },
        FormatVersion::Extended => {
            let _ = enc.push(EXTENDED_MARKER as u64, MARKER_BITS);
            proof {
                assert(enc.bits() =~= pre5);
            }
            let count = snap.colors.len();
            let _ = enc.push(count as u64, COLOR_BITS);
            let ghost pre6 = pre5 + bits_of(m.colors.len(), COLOR_BITS as nat);
            proof {
                assert(enc.bits() =~= pre6);
            }
            let mut k: usize = 0;
            while k < snap.colors.len()
                invariant
                    enc.wf(),
                    k <= snap.colors@.len(),
                    m == snap@,
                    enc.bits() =~= pre6 + overrides_bits(m.colors.take(k as int)),
                decreases snap.colors@.len() - k,
            {
                let o = snap.colors[k];
                let _ = enc.push(o.x as u64, POS_BITS);
                let _ = enc.push(o.y as u64, POS_BITS);
                let _ = enc.push(o.color as u64, COLOR_BITS);
                proof {
                    let t = m.colors.take(k + 1);
                    assert(t.drop_last() =~= m.colors.take(k as int));
                    assert(t.last() == m.colors[k as int]);
                    lemma_overrides_bits_snoc(t);
                    let ob = overrides_bits(m.colors.take(k as int));
                    let bx = bits_of(o.x as nat, POS_BITS as nat);
                    let by = bits_of(o.y as nat, POS_BITS as nat);
                    let bc = bits_of(o.color as nat, COLOR_BITS as nat);
                    assert((((pre6 + ob) + bx) + by) + bc =~= pre6 + (ob + ((bx + by) + bc)));
                    assert(ob + ((bx + by) + bc) =~= ob + override_bits(m.colors[k as int]));
                    assert(enc.bits() =~= pre6 + overrides_bits(t));
                }
                k = k + 1;
            }
            proof {
                assert(m.colors.take(m.colors.len() as int) =~= m.colors);
                assert(snapshot_bits(m, version) == pre5 + trailer_bits(m, version));
                assert(pre6 + overrides_bits(m.colors) =~= pre5 + (bits_of(
                    m.colors.len(),
                    COLOR_BITS as nat,
                ) + overrides_bits(m.colors)));
            }
        },
    }
    proof {
        assert(enc.bits() =~= snapshot_bits(m, version));
    }
    enc.result()
}

/// The length of the basket block.
proof fn lemma_baskets_bits_len(bs: Seq<u8>)
    ensures
        baskets_bits(bs).len() == 5 * bs.len(),
    decreases bs.len(),
{
    if bs.len() > 0 {
        lemma_baskets_bits_len(bs.drop_first());
    }
}

/// The length of the override block.
proof fn lemma_overrides_bits_len(os: Seq<ColorOverride>)
    ensures
        overrides_bits(os).len() == 16 * os.len(),
    decreases os.len(),
{
    if os.len() > 0 {
        lemma_overrides_bits_len(os.drop_first());
    }
}

/// A bit sequence that carries a basket block at `off` parses back to
/// exactly those slots.
proof fn lemma_parse_baskets_of_bits(bits: Seq<bool>, off: nat, bs: Seq<u8>, nf: u8)
    requires
        off + 5 * bs.len() <= bits.len(),
        forall|t: int| 0 <= t < bs.len() ==> (#[trigger] bs[t]) < 32 && bs[t] <= nf,
        bits.subrange(off as int, (off + 5 * bs.len()) as int) =~= baskets_bits(bs),
    ensures
        parse_baskets(bits, off, bs.len(), nf) == Ok::<Seq<u8>, DecodeError>(bs),
    decreases bs.len(),
{
    if bs.len() > 0 {
        lemma_baskets_bits_len(bs.drop_first());
        let s_all = bits.subrange(off as int, (off + 5 * bs.len()) as int);
        assert(bits.subrange(off as int, off as int + 5) =~= bits_of(bs[0] as nat, 5)) by {
            assert forall|i: int| 0 <= i < 5 implies bits.subrange(off as int, off as int + 5)[i]
                == bits_of(bs[0] as nat, 5)[i] by {
                assert(s_all[i] == baskets_bits(bs)[i]);
                assert(s_all[i] == bits[off + i]);
            }
        }
        let id = val_of(bits.subrange(off as int, off as int + 5));
        assert(id == bs[0]) by {
            lemma_val_of_bits_of(bs[0] as nat, 5);
            lemma2_to64();
            vstd::arithmetic::div_mod::lemma_small_mod(bs[0] as nat, 32);
        }
        assert(bits.subrange((off + 5) as int, (off + 5 + 5 * bs.drop_first().len()) as int)
            =~= baskets_bits(bs.drop_first())) by {
            assert forall|i: int| 0 <= i < 5 * bs.drop_first().len() implies bits.subrange(
                (off + 5) as int,
                (off + 5 + 5 * bs.drop_first().len()) as int,
            )[i] == baskets_bits(bs.drop_first())[i] by {
                let k = 5 + i;
                assert(s_all[k] == baskets_bits(bs)[k]);
                assert(s_all[k] == bits[off + k]);
                assert(baskets_bits(bs)[k] == baskets_bits(bs.drop_first())[i]);
            }
        }
        lemma_parse_baskets_of_bits(bits, (off + 5) as nat, bs.drop_first(), nf);
        assert(seq![bs[0]] + bs.drop_first() =~= bs);
    } else {
        assert(bs =~= Seq::<u8>::empty());
    }
}

/// A bit sequence that carries an override block at `off` parses back to
/// exactly those overrides.
proof fn lemma_parse_overrides_of_bits(bits: Seq<bool>, off: nat, os: Seq<ColorOverride>)
    requires
        off + 16 * os.len() <= bits.len(),
        forall|t: int| 0 <= t < os.len() ==> (#[trigger] os[t]).x < 16 && os[t].y < 16,
        bits.subrange(off as int, (off + 16 * os.len()) as int) =~= overrides_bits(os),
    ensures
        parse_overrides(bits, off, os.len()) == Ok::<Seq<ColorOverride>, DecodeError>(os),
    decreases os.len(),
{
    if os.len() > 0 {
        lemma_overrides_bits_len(os.drop_first());
        let o = os[0];
        let s_all = bits.subrange(off as int, (off + 16 * os.len()) as int);
        assert(bits.subrange(off as int, off as int + 4) =~= bits_of(o.x as nat, 4)) by {
            assert forall|i: int| 0 <= i < 4 implies bits.subrange(off as int, off as int + 4)[i]
                == bits_of(o.x as nat, 4)[i] by {
                assert(s_all[i] == overrides_bits(os)[i]);
                assert(s_all[i] == bits[off + i]);
            }
        }
        assert(bits.subrange(off as int + 4, off as int + 8) =~= bits_of(o.y as nat, 4)) by {
            assert forall|i: int| 0 <= i < 4 implies bits.subrange(
                off as int + 4,
                off as int + 8,
            )[i] == bits_of(o.y as nat, 4)[i] by {
                let k = 4 + i;
                assert(s_all[k] == overrides_bits(os)[k]);
                assert(s_all[k] == bits[off + k]);
                assert(override_bits(o)[k] == bits_of(o.y as nat, 4)[i]);
            }
        }
        assert(bits.subrange(off as int + 8, off as int + 16) =~= bits_of(o.color as nat, 8)) by {
            assert forall|i: int| 0 <= i < 8 implies bits.subrange(
                off as int + 8,
                off as int + 16,
            )[i] == bits_of(o.color as nat, 8)[i] by {
                let k = 8 + i;
                assert(s_all[k] == overrides_bits(os)[k]);
                assert(s_all[k] == bits[off + k]);
                assert(override_bits(o)[k] == bits_of(o.color as nat, 8)[i]);
            }
        }
        let x = val_of(bits.subrange(off as int, off as int + 4));
        let y = val_of(bits.subrange(off as int + 4, off as int + 8));
        let c = val_of(bits.subrange(off as int + 8, off as int + 16));
        assert(x == o.x && y == o.y && c == o.color) by {
            lemma_val_of_bits_of(o.x as nat, 4);
            lemma_val_of_bits_of(o.y as nat, 4);
            lemma_val_of_bits_of(o.color as nat, 8);
            lemma2_to64();
            vstd::arithmetic::div_mod::lemma_small_mod(o.x as nat, 16);
            vstd::arithmetic::div_mod::lemma_small_mod(o.y as nat, 16);
            vstd::arithmetic::div_mod::lemma_small_mod(o.color as nat, 256);
        }
        assert((ColorOverride { x: x as u8, y: y as u8, color: c as u8 }) == o);
        assert(bits.subrange((off + 16) as int, (off + 16 + 16 * os.drop_first().len()) as int)
            =~= overrides_bits(os.drop_first())) by {
            assert forall|i: int| 0 <= i < 16 * os.drop_first().len() implies bits.subrange(
                (off + 16) as int,
                (off + 16 + 16 * os.drop_first().len()) as int,
            )[i] == overrides_bits(os.drop_first())[i] by {
                let k = 16 + i;
                assert(s_all[k] == overrides_bits(os)[k]);
                assert(s_all[k] == bits[off + k]);
                assert(overrides_bits(os)[k] == overrides_bits(os.drop_first())[i]);
            }
        }
        lemma_parse_overrides_of_bits(bits, (off + 16) as nat, os.drop_first());
        assert(seq![o] + os.drop_first() =~= os);
    } else {
        assert(os =~= Seq::<ColorOverride>::empty());
    }
}

/// Version-compatible round trip of the whole state codec. Decoding the
/// encoded text of any well-formed snapshot succeeds; an extended payload
/// reproduces the snapshot exactly, overrides included, and a legacy
/// payload (which carries no color block) reproduces it with no color
/// overrides. Together with the contracts of `serialize` and `deserialize`
/// this says: `deserialize(serialize(snap, v))` is `Ok`, equal to `snap`
/// but for the colors of a legacy payload, whenever every basket slot is
/// within the `nf`-figure catalog.
#[verifier::rlimit(100)]
pub proof fn lemma_snapshot_round_trip(m: SnapshotModel, v: FormatVersion, nf: u8)
    requires
        m.wf(),
        m.baskets.len() <= 255,
        forall|t: int| 0 <= t < m.baskets.len() ==> (#[trigger] m.baskets[t]) <= nf,
    ensures
        spec_deserialize(
            encoded_of(snapshot_bits(m, v)),
            m.width,
            m.height,
            m.baskets.len() as u8,
            nf,
        ) == Ok::<SnapshotModel, DecodeError>(
            match v {
                FormatVersion::Extended => m,
                FormatVersion::Legacy => SnapshotModel { colors: Seq::empty(), ..m },
            },
        ),
{
    let bb = snapshot_bits(m, v);
    let cs = encoded_of(bb);
    let bits = str_bits(cs);
    let n0 = m.width as nat * m.height as nat;
    let nb = m.baskets.len();
    let o1 = n0 + 5 * nb;
    let sc = bits_of(m.score as nat, 32);
    let el = bits_of(m.elapsed as nat, 64);
    let mk = bits_of(marker_value(v), 5);
    let tr = trailer_bits(m, v);
    let p2 = m.cells + baskets_bits(m.baskets);
    let p3 = p2 + sc;
    let p4 = p3 + el;
    let p5 = p4 + mk;
    assert(bb == p5 + tr);
    lemma_baskets_bits_len(m.baskets);
    lemma_overrides_bits_len(m.colors);
    assert(p5.len() == o1 + 101);
    crate::codec::lemma_encoded_in_alphabet(bb);
    assert(!(exists|i: int| 0 <= i < cs.len() && !is_symbol(cs[i])));
    crate::codec::lemma_str_bits_of_encoded(bb);
    assert(bits.subrange(0, bb.len() as int) =~= bb);
    assert(bb.len() <= bits.len());
    assert forall|i: int| 0 <= i < bb.len() implies bits[i] == bb[i] by {
        assert(bits.subrange(0, bb.len() as int)[i] == bits[i]);
    }
    // the occupancy block
    assert(bits.subrange(0, n0 as int) =~= m.cells);
    // the basket block
    assert(bits.subrange(n0 as int, (n0 + 5 * nb) as int) =~= baskets_bits(m.baskets)) by {
        assert forall|i: int| 0 <= i < 5 * nb implies bits[n0 + i] == baskets_bits(m.baskets)[i] by {
            assert(bb[n0 + i] == baskets_bits(m.baskets)[i]);
        }
    }
    lemma_parse_baskets_of_bits(bits, n0, m.baskets, nf);
    // the fixed tail: score, elapsed seconds, marker
    assert(bits.subrange(o1 as int, o1 as int + 32) =~= sc) by {
        assert forall|i: int| 0 <= i < 32 implies bits[o1 + i] == sc[i] by {
            assert(bb[o1 + i] == sc[i]);
        }
    }
    assert(bits.subrange(o1 as int + 32, o1 as int + 96) =~= el) by {
        assert forall|i: int| 0 <= i < 64 implies bits[o1 + 32 + i] == el[i] by {
            assert(bb[o1 + 32 + i] == el[i]);
        }
    }
    assert(bits.subrange(o1 as int + 96, o1 as int + 101) =~= mk) by {
        assert forall|i: int| 0 <= i < 5 implies bits[o1 + 96 + i] == mk[i] by {
            assert(bb[o1 + 96 + i] == mk[i]);
        }
    }
    assert(val_of(bits.subrange(o1 as int, o1 as int + 32)) == m.score as nat) by {
        lemma_val_of_bits_of(m.score as nat, 32);
        lemma2_to64();
        vstd::arithmetic::div_mod::lemma_small_mod(m.score as nat, pow2(32));
    }
    assert(val_of(bits.subrange(o1 as int + 32, o1 as int + 96)) == m.elapsed as nat) by {
        lemma_val_of_bits_of(m.elapsed as nat, 64);
        lemma2_to64_rest();
        vstd::arithmetic::div_mod::lemma_small_mod(m.elapsed as nat, pow2(64));
    }
    assert(val_of(bits.subrange(o1 as int + 96, o1 as int + 101)) == marker_value(v)) by {
        lemma_val_of_bits_of(marker_value(v), 5);
        lemma2_to64();
        vstd::arithmetic::div_mod::lemma_small_mod(marker_value(v), 32);
    }
    match v {
        FormatVersion::Legacy => {
            assert(marker_value(v) != EXTENDED_MARKER as nat);
        },
        FormatVersion::Extended => {
            let cb = bits_of(m.colors.len(), 8);
            assert(bb == p5 + (cb + overrides_bits(m.colors)));
            assert(bits.subrange(o1 as int + 101, o1 as int + 109) =~= cb) by {
                assert forall|i: int| 0 <= i < 8 implies bits[o1 + 101 + i] == cb[i] by {
                    assert(bb[o1 + 101 + i] == cb[i]);
                }
            }
            assert(val_of(bits.subrange(o1 as int + 101, o1 as int + 109)) == m.colors.len()) by {
                lemma_val_of_bits_of(m.colors.len(), 8);
                lemma2_to64();
                vstd::arithmetic::div_mod::lemma_small_mod(m.colors.len(), 256);
            }
            assert(bits.subrange(o1 as int + 109, (o1 + 109 + 16 * m.colors.len()) as int)
                =~= overrides_bits(m.colors)) by {
                assert forall|i: int| 0 <= i < 16 * m.colors.len() implies bits[o1 + 109 + i]
                    == overrides_bits(m.colors)[i] by {
                    assert(bb[o1 + 109 + i] == overrides_bits(m.colors)[i]);
                }
            }
            lemma_parse_overrides_of_bits(bits, (o1 + 109) as nat, m.colors);
        },
    }
}

/// Reads the `n0` occupancy bits from the cursor onward.
fn read_cells(dec: Decoder, n0: usize) -> (r: (Decoder, Option<Vec<bool>>))
    requires
        dec.wf(),
    ensures
        r.0.wf(),
        r.0.bits() == dec.bits(),
        dec.cursor() + n0 <= dec.bits().len() ==> (r.1 matches Some(cells) && cells@
            =~= dec.bits().subrange(dec.cursor() as int, dec.cursor() + n0) && r.0.cursor()
            == dec.cursor() + n0),
        dec.cursor() + n0 > dec.bits().len() ==> r.1 == None::<Vec<bool>>,
{
    let ghost b = dec.bits();
    let ghost p0 = dec.cursor();
    proof {
        dec.lemma_cursor_in_range();
    }
    let mut d = dec;
    let mut cells: Vec<bool> = Vec::new();
    let mut i: usize = 0;
    while i < n0
        invariant
            d.wf(),
            d.bits() == b,
            b == dec.bits(),
            p0 == dec.cursor(),
            d.cursor() == p0 + i,
            p0 + i <= b.len(),
            i <= n0,
            cells@.len() == i,
            cells@ =~= b.subrange(p0 as int, p0 + i),
        decreases n0 - i,
    {
        match d.take(1) {
            Some(v) => {
                proof {
                    let sub = b.subrange(p0 + i, p0 + i + 1);
                    assert(sub.len() == 1);
                    assert(sub.drop_last() =~= b.subrange(p0 + i, p0 + i));
                    assert(b.subrange(p0 + i, p0 + i).len() == 0);
                    assert(val_of(sub.drop_last()) == 0);
                    assert(sub.last() == b[p0 + i]);
                    assert(val_of(sub) == (if b[p0 + i] {
                        1nat
                    } else {
                        0nat
                    }));
                    assert(cells@.push(v == 1) =~= b.subrange(p0 as int, p0 + i + 1));
                }
                cells.push(v == 1);
            },
            None => {
                return (d, None);
            },
        }
        i = i + 1;
    }
    (d, Some(cells))
}

/// Reads the basket slots from the cursor onward, exactly as
/// `parse_baskets` says.
fn read_baskets(dec: Decoder, basket_count: u8, figure_count: u8) -> (r: (
    Decoder,
    Result<Vec<u8>, DecodeError>,
))
    requires
        dec.wf(),
    ensures
        r.0.wf(),
        r.0.bits() == dec.bits(),
        match parse_baskets(dec.bits(), dec.cursor(), basket_count as nat, figure_count) {
            Ok(bs) => r.1 matches Ok(v) && v@ == bs && r.0.cursor() == dec.cursor() + 5
                * basket_count && (forall|t: int| 0 <= t < bs.len() ==> (#[trigger] bs[t]) < 32),
            Err(e) => r.1 == Err::<Vec<u8>, DecodeError>(e),
        },
{
    let ghost b = dec.bits();
    let ghost p0 = dec.cursor();
    proof {
        dec.lemma_cursor_in_range();
    }
    let mut d = dec;
    let mut baskets: Vec<u8> = Vec::new();
    proof {
        if parse_baskets(b, p0, basket_count as nat, figure_count) is Ok {
            let rest0 = parse_baskets(b, p0, basket_count as nat, figure_count)->Ok_0;
            assert(Seq::<u8>::empty() + rest0 =~= rest0);
        }
    }
    let mut j: u8 = 0;
    while j < basket_count
        invariant
            d.wf(),
            d.bits() == b,
            b == dec.bits(),
            p0 == dec.cursor(),
            d.cursor() == p0 + 5 * j,
            j <= basket_count,
            baskets@.len() == j,
            forall|t: int| 0 <= t < j ==> (#[trigger] baskets@[t]) < 32,
            parse_baskets(b, p0, basket_count as nat, figure_count) == (match parse_baskets(
                b,
                (p0 + 5 * j) as nat,
                (basket_count - j) as nat,
                figure_count,
            ) {
                Ok(rest) => Ok::<Seq<u8>, DecodeError>(baskets@ + rest),
                Err(e) => Err::<Seq<u8>, DecodeError>(e),
            }),
        decreases basket_count - j,
    {
        let ghost off = (p0 + 5 * j) as nat;
        let ghost remaining = (basket_count - j) as nat;
        match d.take(FIGURE_BITS) {
            Some(v) => {
                proof {
                    lemma_val_of_bound(b.subrange(off as int, off as int + 5));
                    lemma2_to64();
                    assert(v == val_of(b.subrange(off as int, off as int + 5)));
                    assert(v < 32);
                }
                if v > figure_count as u64 {
                    return (d, Err(DecodeError::UnknownFigure));
                }
                let ghost bs0 = baskets@;
                baskets.push(v as u8);
                proof {
                    if parse_baskets(b, (off + 5) as nat, (remaining - 1) as nat, figure_count)
                        is Ok {
                        let rest = parse_baskets(
                            b,
                            (off + 5) as nat,
                            (remaining - 1) as nat,
                            figure_count,
                        )->Ok_0;
                        assert(bs0 + (seq![v as u8] + rest) =~= (bs0 + seq![v as u8]) + rest);
                        assert(baskets@ =~= bs0 + seq![v as u8]);
                    }
                }
            },
            None => {
                proof {
                    assert(b.len() < off + 5);
                }
                return (d, Err(DecodeError::Truncated));
            },
        }
        j = j + 1;
    }
    proof {
        assert(parse_baskets(b, (p0 + 5 * basket_count) as nat, 0, figure_count) == Ok::<
            Seq<u8>,
            DecodeError,
        >(Seq::empty()));
        assert(baskets@ + Seq::<u8>::empty() =~= baskets@);
    }
    (d, Ok(baskets))
}

/// Reads `count` color overrides from the cursor onward, exactly as
/// `parse_overrides` says.
fn read_overrides(dec: Decoder, count: usize) -> (r: (
    Decoder,
    Result<Vec<ColorOverride>, DecodeError>,
))
    requires
        dec.wf(),
    ensures
        r.0.wf(),
        r.0.bits() == dec.bits(),
        match parse_overrides(dec.bits(), dec.cursor(), count as nat) {
            Ok(os) => r.1 matches Ok(v) && v@ == os && v@.len() == count && r.0.cursor()
                == dec.cursor() + 16 * count && (forall|t: int|
                0 <= t < os.len() ==> (#[trigger] os[t]).x < 16 && os[t].y < 16),
            Err(e) => r.1 == Err::<Vec<ColorOverride>, DecodeError>(e),
        },
{
    let ghost b = dec.bits();
    let ghost p0 = dec.cursor();
    proof {
        dec.lemma_cursor_in_range();
    }
    let mut d = dec;
    let mut colors: Vec<ColorOverride> = Vec::new();
    proof {
        if parse_overrides(b, p0, count as nat) is Ok {
            let rest0 = parse_overrides(b, p0, count as nat)->Ok_0;
            assert(Seq::<ColorOverride>::empty() + rest0 =~= rest0);
        }
    }
    let mut k: usize = 0;
    while k < count
        invariant
            d.wf(),
            d.bits() == b,
            b == dec.bits(),
            p0 == dec.cursor(),
            d.cursor() == p0 + 16 * k,
            k <= count,
            colors@.len() == k,
            forall|t: int| 0 <= t < k ==> (#[trigger] colors@[t]).x < 16 && colors@[t].y < 16,
            parse_overrides(b, p0, count as nat) == (match parse_overrides(
                b,
                (p0 + 16 * k) as nat,
                (count - k) as nat,
            ) {
                Ok(rest) => Ok::<Seq<ColorOverride>, DecodeError>(colors@ + rest),
                Err(e) => Err::<Seq<ColorOverride>, DecodeError>(e),
            }),
        decreases count - k,
    {
        let ghost off = (p0 + 16 * k) as nat;
        let ghost remaining = (count - k) as nat;
        let x = match d.take(POS_BITS) {
            Some(v) => v,
            None => {
                proof {
                    assert(b.len() < off + 16);
                }
                return (d, Err(DecodeError::Truncated));
            },
        };
        let y = match d.take(POS_BITS) {
            Some(v) => v,
            None => {
                proof {
                    assert(b.len() < off + 16);
                }
                return (d, Err(DecodeError::Truncated));
            },
        };
        let c = match d.take(COLOR_BITS) {
            Some(v) => v,
            None => {
                proof {
                    assert(b.len() < off + 16);
                }
                return (d, Err(DecodeError::Truncated));
            },
        };
        proof {
            lemma_val_of_bound(b.subrange(off as int, off as int + 4));
            lemma_val_of_bound(b.subrange(off as int + 4, off as int + 8));
            lemma_val_of_bound(b.subrange(off as int + 8, off as int + 16));
            lemma2_to64();
            assert(x < 16 && y < 16 && c < 256);
        }
        let o = ColorOverride { x: x as u8, y: y as u8, color: c as u8 };
        let ghost cs0 = colors@;
        colors.push(o);
        proof {
            if parse_overrides(b, (off + 16) as nat, (remaining - 1) as nat) is Ok {
                let rest = parse_overrides(b, (off + 16) as nat, (remaining - 1) as nat)->Ok_0;
                assert(cs0 + (seq![o] + rest) =~= (cs0 + seq![o]) + rest);
                assert(colors@ =~= cs0 + seq![o]);
            }
        }
        k = k + 1;
    }
    proof {
        assert(parse_overrides(b, (p0 + 16 * count) as nat, 0) == Ok::<
            Seq<ColorOverride>,
            DecodeError,
        >(Seq::empty()));
        assert(colors@ + Seq::<ColorOverride>::empty() =~= colors@);
    }
    (d, Ok(colors))
}

/// Reconstructs a snapshot from an encoded text. `width`, `height` and
/// `basket_count` fix the field layout; `figure_count` is the size of the
/// figure catalog that a slot identifier may name. The result is exactly
/// what `spec_deserialize` yields: on any failure nothing is produced, so a
/// caller's live state is never partially overwritten.
pub fn deserialize(data: &str, width: u8, height: u8, basket_count: u8, figure_count: u8) -> (r:
    Result<Snapshot, DecodeError>)
    requires
        data@.len() * 6 <= usize::MAX,
    ensures
        match spec_deserialize(data@, width, height, basket_count, figure_count) {
            Ok(m) => r matches Ok(s) && s@ == m && s@.wf(),
            Err(e) => r == Err::<Snapshot, DecodeError>(e),
        },
{
    let dec = match Decoder::decode(data) {
        Some(d) => d,
        None => {
            return Err(DecodeError::BadCharacter);
        },
    };
    let ghost b = str_bits(data@);
    proof {
        assert(width as int * height as int <= 65025) by (nonlinear_arith)
            requires
                width <= 255 && height <= 255,
        ;
    }
    let n0: usize = width as usize * height as usize;
    let (dec, cells_r) = read_cells(dec, n0);
    let cells = match cells_r {
        Some(cells) => cells,
        None => {
            return Err(DecodeError::Truncated);
        },
    };
    let (dec, baskets_r) = read_baskets(dec, basket_count, figure_count);
    let baskets = match baskets_r {
        Ok(bs) => bs,
        Err(e) => {
            return Err(e);
        },
    };
    let mut dec = dec;
    let ghost o1 = (n0 + 5 * basket_count) as nat;
    let score_v = match dec.take(SCORE_BITS) {
        Some(v) => v,
        None => {
            return Err(DecodeError::Truncated);
        },
    };
    proof {
        lemma_val_of_bound(b.subrange(o1 as int, o1 as int + 32));
        lemma2_to64();
    }
    let score: u32 = score_v as u32;
    let elapsed = match dec.take(TIME_BITS) {
        Some(v) => v,
        None => {
            return Err(DecodeError::Truncated);
        },
    };
    proof {
        lemma_val_of_bound(b.subrange(o1 as int + 32, o1 as int + 96));
        lemma2_to64_rest();
    }
    let marker = match dec.take(MARKER_BITS) {
        Some(v) => v,
        None => {
            return Err(DecodeError::Truncated);
        },
    };
    proof {
        lemma_val_of_bound(b.subrange(o1 as int + 96, o1 as int + 101));
        lemma2_to64();
    }
    if marker != EXTENDED_MARKER as u64 {
        let snap = Snapshot { width, height, cells, baskets, score, elapsed, colors: Vec::new() };
        proof {
            assert(snap@.colors =~= Seq::<ColorOverride>::empty());
        }
        return Ok(snap);
    }
    let count_v = match dec.take(COLOR_BITS) {
        Some(v) => v,
        None => {
            return Err(DecodeError::Truncated);
        },
    };
    proof {
        lemma_val_of_bound(b.subrange(o1 as int + 101, o1 as int + 109));
        lemma2_to64();
    }
    let count: usize = count_v as usize;
    let (_dec, colors_r) = read_overrides(dec, count);
    let colors = match colors_r {
        Ok(os) => os,
        Err(e) => {
            return Err(e);
        },
    };
    let snap = Snapshot { width, height, cells, baskets, score, elapsed, colors };
    Ok(snap)
}

} // verus!
