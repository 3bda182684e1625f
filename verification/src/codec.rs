//! The bit codec: an incremental writer (`Encoder`) that packs fixed-width
//! unsigned integers into a string over the 64-symbol alphabet, six bits per
//! output character, and a reader (`Decoder`) that recovers the integers in
//! the order they were written, across symbol boundaries.
use vstd::prelude::*;

verus! {

use vstd::arithmetic::power2::pow2;
use vstd::arithmetic::power2::lemma_pow2_pos;
use vstd::arithmetic::power2::lemma_pow2_unfold;
use vstd::arithmetic::power2::lemma2_to64;
use vstd::arithmetic::div_mod::lemma_fundamental_div_mod;
use vstd::arithmetic::div_mod::lemma_fundamental_div_mod_converse;
use vstd::arithmetic::div_mod::lemma_small_mod;
use crate::alphabet::symbol;
use crate::alphabet::sym_index;
use crate::alphabet::is_symbol;
use crate::alphabet::lemma_symbol_index;
use crate::alphabet::symbol_str;
use crate::alphabet::char_value;
use crate::bits::bits_of;
use crate::bits::val_of;
use crate::bits::lemma_val_of_bound;
use crate::bits::lemma_bits_of_val_of;
use crate::bits::lemma_val_of_bits_of;
use crate::bits::lemma_bits_of_append_bit;
use crate::bits::lemma_bits_of_shift;
use vstd::string::StringExecFns;
use vstd::string::StrSliceExecFns;

/// The bit sequence that a sequence of 6-bit group values stands for.
pub open spec fn group_bits(gs: Seq<u8>) -> Seq<bool> {
    Seq::new((6 * gs.len()) as nat, |i: int| bits_of(gs[i / 6] as nat, 6)[i % 6])
}

/// How many zero bits the writer appends to fill the final 6-bit group.
pub open spec fn pad_len(n: nat) -> nat {
    ((6 - n % 6) % 6) as nat
}

/// A bit sequence extended with the writer's trailing zero padding.
pub open spec fn padded(s: Seq<bool>) -> Seq<bool> {
    s + bits_of(0, pad_len(s.len()))
}

/// The encoded text of a bit sequence: one alphabet symbol for each 6-bit
/// group of the zero-padded sequence.
pub open spec fn encoded_of(s: Seq<bool>) -> Seq<char> {
    Seq::new(((s.len() + 5) / 6) as nat, |k: int| symbol(
        val_of(padded(s).subrange(6 * k, 6 * k + 6)) as int,
    ))
}

/// The bit sequence carried by a text: six bits per character, given by each
/// character's group value. Meaningful only when every character is in the
/// alphabet.
pub open spec fn str_bits(cs: Seq<char>) -> Seq<bool> {
    Seq::new((6 * cs.len()) as nat, |i: int| bits_of(sym_index(cs[i / 6]) as nat, 6)[i % 6])
}

/// Zero bits are all false.
proof fn lemma_zero_bits(z: nat)
    ensures
        forall|j: int| 0 <= j < z ==> !bits_of(0, z)[j],
{
    assert forall|j: int| 0 <= j < z implies !bits_of(0, z)[j] by {
        lemma_pow2_pos((z - 1 - j) as nat);
        assert(0nat / pow2((z - 1 - j) as nat) == 0);
    }
}

/// Appending one full group to a group sequence appends its six bits.
pub proof fn lemma_group_bits_push(gs: Seq<u8>, g: u8)
    ensures
        group_bits(gs.push(g)) =~= group_bits(gs) + bits_of(g as nat, 6),
{
    let l = gs.len() as int;
    assert forall|i: int| 0 <= i < 6 * (l + 1) implies group_bits(gs.push(g))[i] == (group_bits(gs)
        + bits_of(g as nat, 6))[i] by {
        if i < 6 * l {
            assert(i / 6 < l && 0 <= i / 6) by {
                lemma_fundamental_div_mod(i, 6);
            }
            assert(gs.push(g)[i / 6] == gs[i / 6]);
        } else {
            lemma_fundamental_div_mod_converse(i, 6, l, i - 6 * l);
            assert(i / 6 == l && i % 6 == i - 6 * l);
        }
    }
}

/// The `k`th six-bit slice of a group sequence is the bits of its `k`th group.
pub proof fn lemma_group_bits_subrange(gs: Seq<u8>, k: int)
    requires
        0 <= k < gs.len(),
    ensures
        group_bits(gs).subrange(6 * k, 6 * k + 6) =~= bits_of(gs[k] as nat, 6),
{
    assert forall|j: int| 0 <= j < 6 implies group_bits(gs)[6 * k + j] == bits_of(
        gs[k] as nat,
        6,
    )[j] by {
        lemma_fundamental_div_mod_converse(6 * k + j, 6, k, j);
        assert((6 * k + j) / 6 == k && (6 * k + j) % 6 == j);
    }
}

/// Alphabet closure: every character of an encoded text is in the alphabet.
pub proof fn lemma_encoded_in_alphabet(s: Seq<bool>)
    ensures
        forall|k: int| 0 <= k < encoded_of(s).len() ==> #[trigger] is_symbol(encoded_of(s)[k]),
{
    assert forall|k: int| 0 <= k < encoded_of(s).len() implies #[trigger] is_symbol(
        encoded_of(s)[k],
    ) by {
        let g = val_of(padded(s).subrange(6 * k, 6 * k + 6));
        assert(g < 64) by {
            lemma_val_of_bound(padded(s).subrange(6 * k, 6 * k + 6));
            lemma2_to64();
        }
        lemma_symbol_index(g as int);
    }
}

/// The encoded text has one character per started 6-bit group.
pub proof fn lemma_encoded_len(s: Seq<bool>)
    ensures
        encoded_of(s).len() == (s.len() + 5) / 6,
{
}

/// Padding length arithmetic: the padded sequence fills the groups exactly.
proof fn lemma_padded_len(s: Seq<bool>)
    ensures
        padded(s).len() == 6 * ((s.len() + 5) / 6),
        s.len() <= padded(s).len(),
{
    let n = s.len() as int;
    lemma_fundamental_div_mod(n, 6);
    if n % 6 == 0 {
        lemma_fundamental_div_mod_converse(n + 5, 6, n / 6, 5);
    } else {
        lemma_fundamental_div_mod_converse(n + 5, 6, n / 6 + 1, n % 6 - 1);
    }
}

/// Round trip at the bit level: reading the bits back from an encoded text
/// recovers the original sequence, followed only by the writer's zero
/// padding.
pub proof fn lemma_str_bits_of_encoded(s: Seq<bool>)
    ensures
        str_bits(encoded_of(s)) =~= padded(s),
        str_bits(encoded_of(s)).subrange(0, s.len() as int) =~= s,
        forall|i: int| s.len() <= i < str_bits(encoded_of(s)).len() ==> !str_bits(encoded_of(s))[i],
{
    let p = padded(s);
    lemma_padded_len(s);
    lemma_zero_bits(pad_len(s.len()));
    assert forall|i: int| 0 <= i < 6 * encoded_of(s).len() implies str_bits(encoded_of(s))[i]
        == p[i] by {
        let k = i / 6;
        let j = i % 6;
        lemma_fundamental_div_mod(i, 6);
        assert(0 <= k < encoded_of(s).len());
        let slice = p.subrange(6 * k, 6 * k + 6);
        let g = val_of(slice);
        assert(g < 64) by {
            lemma_val_of_bound(slice);
            lemma2_to64();
        }
        lemma_symbol_index(g as int);
        assert(sym_index(encoded_of(s)[k]) == g);
        assert(bits_of(g, 6) =~= slice) by {
            lemma_bits_of_val_of(slice);
        }
        assert(bits_of(g, 6)[j] == slice[j]);
        assert(slice[j] == p[6 * k + j]);
    }
    assert forall|i: int| s.len() <= i < str_bits(encoded_of(s)).len() implies !str_bits(
        encoded_of(s),
    )[i] by {
        assert(p[i] == bits_of(0, pad_len(s.len()))[i - s.len()]);
    }
}

/// The bit sequence written by a series of `(value, width)` pushes, in call
/// order.
pub open spec fn fields_bits(fs: Seq<(u64, u8)>) -> Seq<bool>
    decreases fs.len(),
{
    if fs.len() == 0 {
        Seq::empty()
    } else {
        bits_of(fs[0].0 as nat, fs[0].1 as nat) + fields_bits(fs.drop_first())
    }
}

/// The bit offset at which the `k`th pushed field starts.
pub open spec fn field_offset(fs: Seq<(u64, u8)>, k: int) -> nat
    decreases k,
{
    if k <= 0 || fs.len() == 0 {
        0
    } else {
        fs[0].1 as nat + field_offset(fs.drop_first(), k - 1)
    }
}

/// Each field occupies its own slice of the written bit sequence.
proof fn lemma_field_slice(fs: Seq<(u64, u8)>, k: int)
    requires
        0 <= k < fs.len(),
    ensures
        field_offset(fs, k) + fs[k].1 <= fields_bits(fs).len(),
        fields_bits(fs).subrange(
            field_offset(fs, k) as int,
            field_offset(fs, k) + fs[k].1,
        ) =~= bits_of(fs[k].0 as nat, fs[k].1 as nat),
    decreases k,
{
    let head = bits_of(fs[0].0 as nat, fs[0].1 as nat);
    let rest = fields_bits(fs.drop_first());
    if k == 0 {
        lemma_fields_bits_len_lower(fs, 0);
        assert(fields_bits(fs).subrange(0, fs[0].1 as int) =~= head);
    } else {
        lemma_field_slice(fs.drop_first(), k - 1);
        let off = field_offset(fs.drop_first(), k - 1) as int;
        let w = fs.drop_first()[k - 1].1 as int;
        assert(fs[k] == fs.drop_first()[k - 1]);
        assert(fields_bits(fs).subrange(
            head.len() + off,
            head.len() + off + w,
        ) =~= rest.subrange(off, off + w));
    }
}

/// The written sequence is at least as long as any field's end offset.
proof fn lemma_fields_bits_len_lower(fs: Seq<(u64, u8)>, k: int)
    requires
        0 <= k <= fs.len(),
    ensures
        k < fs.len() ==> field_offset(fs, k) + fs[k].1 <= fields_bits(fs).len(),
        k == fs.len() ==> field_offset(fs, k) == fields_bits(fs).len(),
    decreases fs.len(),
{
    if fs.len() > 0 {
        if k == 0 {
            lemma_fields_bits_len_lower(fs.drop_first(), 0);
        } else {
            lemma_fields_bits_len_lower(fs.drop_first(), k - 1);
            if k < fs.len() {
                assert(fs[k] == fs.drop_first()[k - 1]);
            }
        }
    }
}

/// Round-trip identity. For any series of `(value, width)` pushes with
/// widths in 1..=64 and each value within its width, the bits read back
/// from the encoded text at each field's offset yield the original value:
/// together with the contracts of `Encoder::push`, `Encoder::result`,
/// `Decoder::decode` and `Decoder::take`, decoding an encoded series
/// reproduces the pushed values exactly, in push order, whether or not
/// the widths align with the six-bit symbol boundaries.
pub proof fn lemma_round_trip(fs: Seq<(u64, u8)>, k: int)
    requires
        0 <= k < fs.len(),
        forall|j: int| 0 <= j < fs.len() ==> 1 <= (#[trigger] fs[j]).1 <= 64,
        forall|j: int| 0 <= j < fs.len() ==> (#[trigger] fs[j]).0 < pow2(fs[j].1 as nat),
    ensures
        field_offset(fs, k) + fs[k].1 <= fields_bits(fs).len(),
        val_of(
            str_bits(encoded_of(fields_bits(fs))).subrange(
                field_offset(fs, k) as int,
                field_offset(fs, k) + fs[k].1,
            ),
        ) == fs[k].0,
{
    let b = fields_bits(fs);
    let off = field_offset(fs, k) as int;
    let w = fs[k].1 as int;
    lemma_field_slice(fs, k);
    lemma_str_bits_of_encoded(b);
    assert(str_bits(encoded_of(b)).subrange(off, off + w) =~= b.subrange(off, off + w));
    lemma_val_of_bits_of(fs[k].0 as nat, fs[k].1 as nat);
    lemma_small_mod(fs[k].0 as nat, pow2(fs[k].1 as nat));
}

/// The incremental bit writer: accepts integers of any width up to 64 bits
/// and flushes one alphabet symbol for every six accumulated bits.
pub struct Encoder {
    groups: Vec<u8>,
    acc: u8,
    nbits: u8,
}

impl Encoder {
    /// All bits accepted so far, in push order.
    pub closed spec fn bits(&self) -> Seq<bool> {
        group_bits(self.groups@) + bits_of(self.acc as nat, self.nbits as nat)
    }

    /// Internal consistency: each flushed group is a 6-bit value and the
    /// accumulator holds fewer than six bits.
    pub closed spec fn wf(&self) -> bool {
        &&& forall|k: int| 0 <= k < self.groups@.len() ==> (#[trigger] self.groups@[k]) < 64
        &&& self.nbits < 6
        &&& (self.acc as nat) < pow2(self.nbits as nat)
    }

    pub fn new() -> (r: Encoder)
        ensures
            r.wf(),
            r.bits() =~= Seq::<bool>::empty(),
    {
        let e = Encoder { groups: Vec::new(), acc: 0, nbits: 0 };
        proof {
            lemma2_to64();
        }
        e
    }

    /// Appends the `size` low-order bits of `item`, most-significant first.
    /// A width over 64 is rejected and leaves the writer untouched; a width
    /// of zero is a no-op.
    pub fn push(&mut self, item: u64, size: u8) -> (r: Option<()>)
        requires
            old(self).wf(),
        ensures
            final(self).wf(),
            size <= 64 ==> r == Some(()) && final(self).bits() =~= old(self).bits() + bits_of(
                item as nat,
                size as nat,
            ),
            size > 64 ==> r == None::<()> && *final(self) == *old(self),
    {
        if size > 64 {
            return None;
        }
        if size == 0 {
            proof {
                assert(self.bits() =~= self.bits() + bits_of(item as nat, 0));
            }
            return Some(());
        }
        let ghost bits0 = self.bits();
        proof {
            lemma2_to64();
        }
        // The weight of the most significant of the `size` pushed bits.
        let mut p: u64 = 1;
        let mut k: u8 = 1;
        while k < size
            invariant
                1 <= k <= size <= 64,
                p == pow2((k - 1) as nat),
            decreases size - k,
        {
            proof {
                lemma_pow2_unfold(k as nat);
                vstd::arithmetic::power2::lemma_pow2_strictly_increases(k as nat, 64);
                lemma2_to64();
                vstd::arithmetic::power2::lemma2_to64_rest();
            }
            p = p * 2;
            k = k + 1;
        }
        let mut i: u8 = 0;
        while i < size
            invariant
                self.wf(),
                0 <= i <= size <= 64,
                1 <= size,
                i < size ==> p == pow2((size - 1 - i) as nat),
                self.bits() =~= bits0 + bits_of(item as nat, size as nat).take(i as int),
            decreases size - i,
        {
            let ghost e = (size - 1 - i) as nat;
            proof {
                lemma_pow2_pos(e);
            }
            let b: u8 = ((item / p) % 2) as u8;
            proof {
                assert(bits_of(item as nat, size as nat)[i as int] == ((item as nat / pow2(e)) % 2
                    == 1));
                assert(b as nat == (item as nat / pow2(e)) % 2);
                lemma2_to64();
            }
            let ghost before = self.bits();
            let ghost acc0 = self.acc;
            let ghost n0 = self.nbits;
            proof {
                lemma_pow2_unfold((n0 + 1) as nat);
            }
            self.acc = self.acc * 2 + b;
            self.nbits = self.nbits + 1;
            proof {
                lemma_bits_of_append_bit(acc0 as nat, n0 as nat, b as nat);
                assert(bits_of(self.acc as nat, self.nbits as nat) =~= bits_of(
                    acc0 as nat,
                    n0 as nat,
                ).push(b == 1));
                assert(self.bits() =~= before.push(b == 1));
            }
            if self.nbits == 6 {
                let g = self.acc;
                let ghost gs0 = self.groups@;
                let ghost mid = self.bits();
                self.groups.push(g);
                self.acc = 0;
                self.nbits = 0;
                proof {
                    lemma_group_bits_push(gs0, g);
                    assert(self.bits() =~= group_bits(gs0.push(g)));
                    assert(self.bits() =~= mid);
                }
            }
            proof {
                assert(bits_of(item as nat, size as nat).take(i + 1) =~= bits_of(
                    item as nat,
                    size as nat,
                ).take(i as int).push(bits_of(item as nat, size as nat)[i as int]));
                assert(self.bits() =~= bits0 + bits_of(item as nat, size as nat).take(i + 1));
                if i + 1 < size {
                    lemma_pow2_unfold(e);
                }
            }
            i = i + 1;
            p = p / 2;
        }
        proof {
            assert(bits_of(item as nat, size as nat).take(size as int) =~= bits_of(
                item as nat,
                size as nat,
            ));
        }
        Some(())
    }

    /// Flushes any partial group, zero-filled on the low end, and returns
    /// the encoded text. The result has exactly one character for every
    /// started group of six pushed bits.
    pub fn result(self) -> (r: String)
        requires
            self.wf(),
        ensures
            r@ =~= encoded_of(self.bits()),
            r@.len() == (self.bits().len() + 5) / 6,
    {
        let ghost b = self.bits();
        let Encoder { mut groups, acc, nbits } = self;
        let ghost gs0 = groups@;
        let ghost l = gs0.len() as int;
        if nbits > 0 {
            let z: u8 = 6 - nbits;
            let m: u8 = if z == 1 {
                2
            } else if z == 2 {
                4
            } else if z == 3 {
                8
            } else if z == 4 {
                16
            } else {
                32
            };
            proof {
                lemma2_to64();
                assert(m as nat == pow2(z as nat));
                vstd::arithmetic::power2::lemma_pow2_adds(nbits as nat, z as nat);
                assert((acc as nat) * (m as nat) < 64) by (nonlinear_arith)
                    requires
                        (acc as nat) < pow2(nbits as nat),
                        m as nat == pow2(z as nat),
                        pow2(nbits as nat) * pow2(z as nat) == 64,
                ;
            }
            let shifted: u8 = acc * m;
            proof {
                lemma_bits_of_shift(acc as nat, nbits as nat, z as nat);
                lemma_group_bits_push(gs0, shifted);
                lemma_fundamental_div_mod_converse(6 * l + nbits, 6, l, nbits as int);
                assert(pad_len(b.len()) == z as nat);
                assert(padded(b) =~= group_bits(gs0) + (bits_of(acc as nat, nbits as nat)
                    + bits_of(0, z as nat)));
                assert(padded(b) =~= group_bits(gs0) + bits_of(shifted as nat, 6));
                assert(padded(b) =~= group_bits(gs0.push(shifted)));
                lemma_fundamental_div_mod_converse(6 * l + nbits + 5, 6, l + 1, nbits as int - 1);
            }
            groups.push(shifted);
        } else {
            proof {
                lemma_fundamental_div_mod_converse(6 * l, 6, l, 0);
                assert(pad_len(b.len()) == 0);
                assert(padded(b) =~= group_bits(gs0));
                lemma_fundamental_div_mod_converse(6 * l + 5, 6, l, 5);
            }
        }
        proof {
            assert(padded(b) =~= group_bits(groups@));
            assert(encoded_of(b).len() == groups@.len());
            assert forall|k: int| 0 <= k < groups@.len() implies encoded_of(b)[k] == symbol(
                groups@[k] as int,
            ) by {
                lemma_group_bits_subrange(groups@, k);
                lemma_val_of_bits_of(groups@[k] as nat, 6);
                lemma2_to64();
                lemma_small_mod(groups@[k] as nat, 64);
            }
        }
        let mut out = String::new();
        let mut idx: usize = 0;
        while idx < groups.len()
            invariant
                idx <= groups@.len(),
                forall|k: int| 0 <= k < groups@.len() ==> (#[trigger] groups@[k]) < 64,
                forall|k: int|
                    0 <= k < groups@.len() ==> encoded_of(b)[k] == symbol(
                        (#[trigger] groups@[k]) as int,
                    ),
                encoded_of(b).len() == groups@.len(),
                out@ =~= encoded_of(b).take(idx as int),
            decreases groups@.len() - idx,
        {
            let piece = symbol_str(groups[idx]);
            out.append(piece);
            proof {
                assert(out@ =~= encoded_of(b).take(idx + 1));
            }
            idx = idx + 1;
        }
        proof {
            assert(encoded_of(b).take(encoded_of(b).len() as int) =~= encoded_of(b));
        }
        out
    }
}

/// The bit reader: built from an encoded text, it hands back integers of any
/// requested width up to 64 bits, tracking one running bit cursor across
/// symbol boundaries.
pub struct Decoder {
    groups: Vec<u8>,
    pos: usize,
}

impl Decoder {
    /// The whole bit sequence carried by the decoded text.
    pub closed spec fn bits(&self) -> Seq<bool> {
        group_bits(self.groups@)
    }

    /// The read cursor, in bits from the start of the sequence.
    pub closed spec fn cursor(&self) -> nat {
        self.pos as nat
    }

    /// Internal consistency: every group is a 6-bit value, the bit count
    /// fits the machine, and the cursor never passes the end.
    pub closed spec fn wf(&self) -> bool {
        &&& forall|k: int| 0 <= k < self.groups@.len() ==> (#[trigger] self.groups@[k]) < 64
        &&& 6 * self.groups@.len() <= usize::MAX
        &&& self.pos <= 6 * self.groups@.len()
    }

    /// The cursor of a consistent reader never passes the end.
    pub proof fn lemma_cursor_in_range(&self)
        requires
            self.wf(),
        ensures
            self.cursor() <= self.bits().len(),
    {
    }

    /// Builds a reader over the bits of `data`: six bits per character.
    /// Fails exactly when some character is outside the alphabet.
    pub fn decode(data: &str) -> (r: Option<Decoder>)
        requires
            data@.len() * 6 <= usize::MAX,
        ensures
            match r {
                Some(d) => {
                    &&& d.wf()
                    &&& (forall|i: int| 0 <= i < data@.len() ==> is_symbol(#[trigger] data@[i]))
                    &&& d.bits() =~= str_bits(data@)
                    &&& d.cursor() == 0
                },
                None => exists|i: int| 0 <= i < data@.len() && !is_symbol(#[trigger] data@[i]),
            },
    {
        let n = data.unicode_len();
        let mut groups: Vec<u8> = Vec::new();
        let mut i: usize = 0;
        while i < n
            invariant
                n == data@.len(),
                i <= n,
                n * 6 <= usize::MAX,
                groups@.len() == i,
                forall|k: int|
                    #![trigger data@[k]]
                    #![trigger groups@[k]]
                    0 <= k < i ==> is_symbol(data@[k]) && groups@[k] == sym_index(data@[k])
                        && groups@[k] < 64,
            decreases n - i,
        {
            let c = data.get_char(i);
            match char_value(c) {
                Some(v) => {
                    proof {
                        assert(is_symbol(c));
                        crate::alphabet::lemma_index_symbol(c);
                        assert(c == data@[i as int]);
                        assert(v == sym_index(c) as u8);
                        assert(v < 64);
                    }
                    let ghost gs0 = groups@;
                    groups.push(v);
                    proof {
                        assert forall|k: int|
                            #![trigger data@[k]]
                            #![trigger groups@[k]]
                            0 <= k < i + 1 implies is_symbol(data@[k]) && groups@[k] == sym_index(
                            data@[k],
                        ) && groups@[k] < 64 by {
                            if k < i {
                                assert(groups@[k] == gs0[k]);
                            } else {
                                assert(groups@[k] == v);
                            }
                        }
                    }
                },
                None => {
                    return None;
                },
            }
            i = i + 1;
        }
        let d = Decoder { groups, pos: 0 };
        proof {
            assert forall|j: int| 0 <= j < 6 * d.groups@.len() implies d.bits()[j] == str_bits(
                data@,
            )[j] by {
                lemma_fundamental_div_mod(j, 6);
                assert(0 <= j / 6 < d.groups@.len());
            }
            assert(d.bits() =~= str_bits(data@));
        }
        Some(d)
    }

    /// Reads the next `size` bits as an unsigned integer, most-significant
    /// bit first, and advances the cursor. Fails, without moving the cursor,
    /// when the width is over 64 or fewer than `size` bits remain.
    pub fn take(&mut self, size: u8) -> (r: Option<u64>)
        requires
            old(self).wf(),
        ensures
            final(self).wf(),
            final(self).bits() == old(self).bits(),
            size <= 64 && old(self).cursor() + size <= old(self).bits().len() ==> r == Some(
                val_of(
                    old(self).bits().subrange(
                        old(self).cursor() as int,
                        old(self).cursor() + size,
                    ),
                ) as u64,
            ) && final(self).cursor() == old(self).cursor() + size,
            !(size <= 64 && old(self).cursor() + size <= old(self).bits().len()) ==> r
                == None::<u64> && final(self).cursor() == old(self).cursor(),
    {
        if size > 64 {
            return None;
        }
        let total: usize = self.groups.len() * 6;
        let rem: usize = total - self.pos;
        if (size as usize) > rem {
            return None;
        }
        let ghost s = self.bits();
        let ghost p0 = self.pos as nat;
        proof {
            lemma2_to64();
            assert(s.subrange(p0 as int, p0 as int).len() == 0);
        }
        let mut result: u64 = 0;
        let mut k: u8 = 0;
        while k < size
            invariant
                self.wf(),
                k <= size <= 64,
                s == self.bits(),
                p0 == self.pos as nat,
                p0 + size <= s.len(),
                result as nat == val_of(s.subrange(p0 as int, p0 + k)),
                result < pow2(k as nat),
            decreases size - k,
        {
            let i: usize = self.pos + k as usize;
            proof {
                lemma_fundamental_div_mod(i as int, 6);
                assert(0 <= i / 6 < self.groups@.len());
            }
            let g: u8 = self.groups[i / 6];
            let j: usize = i % 6;
            let m: u8 = if j == 0 {
                32
            } else if j == 1 {
                16
            } else if j == 2 {
                8
            } else if j == 3 {
                4
            } else if j == 4 {
                2
            } else {
                1
            };
            let b: u8 = (g / m) % 2;
            proof {
                lemma2_to64();
                vstd::arithmetic::power2::lemma2_to64_rest();
                assert(m as nat == pow2((5 - j) as nat));
                assert(s[i as int] == bits_of(g as nat, 6)[j as int]);
                assert(b as nat == (g as nat / pow2((5 - (j as int)) as nat)) % 2);
                assert(s[i as int] == (b == 1));
                assert(s.subrange(p0 as int, p0 + k + 1).drop_last() =~= s.subrange(
                    p0 as int,
                    p0 + k,
                ));
                assert(s.subrange(p0 as int, p0 + k + 1).last() == s[p0 + k]);
                assert(val_of(s.subrange(p0 as int, p0 + k + 1)) == 2 * (result as nat) + (
                if b == 1 {
                    1nat
                } else {
                    0nat
                }));
                lemma_pow2_unfold((k + 1) as nat);
                vstd::arithmetic::power2::lemma_pow2_strictly_increases(k as nat, 64);
            }
            result = result * 2 + b as u64;
            k = k + 1;
        }
        proof {
            assert(s.subrange(p0 as int, p0 + size) == s.subrange(p0 as int, p0 + k));
        }
        self.pos = self.pos + size as usize;
        Some(result)
    }

    /// Advances the cursor by `size` bits without materializing a value,
    /// stopping at the end of the sequence.
    pub fn skip(&mut self, size: usize)
        requires
            old(self).wf(),
        ensures
            final(self).wf(),
            final(self).bits() == old(self).bits(),
            old(self).cursor() + size <= old(self).bits().len() ==> final(self).cursor() == old(
                self,
            ).cursor() + size,
            old(self).cursor() + size > old(self).bits().len() ==> final(self).cursor() == old(
                self,
            ).bits().len(),
    {
        let total: usize = self.groups.len() * 6;
        let rem: usize = total - self.pos;
        if size > rem {
            self.pos = total;
        } else {
            self.pos = self.pos + size;
        }
    }
}

} // verus!
