//! A container stored as a palette of distinct values plus packed palette indices.
use vstd::prelude::*;
use crate::ids::IdKey;

verus! {

/// Two to the power `b`.
pub open spec fn pow2(b: nat) -> nat
    decreases b,
{
    if b == 0 {
        1
    } else {
        2 * pow2((b - 1) as nat)
    }
}

/// The fewest bits that tell `unique_items` values apart: zero for none or one value.
pub open spec fn required_bits(unique_items: nat, b: nat) -> bool {
    if unique_items <= 1 {
        b == 0
    } else {
        unique_items - 1 < pow2(b) && pow2((b - 1) as nat) <= unique_items - 1
    }
}

/// The minimum number of bits needed to store `unique_items` distinct values.
pub fn get_required_bits(unique_items: usize) -> (r: usize)
    ensures
        required_bits(unique_items as nat, r as nat),
        r <= 64,
{
    if unique_items <= 1 {
        return 0;
    }
    let m: u128 = (unique_items - 1) as u128;
    let mut b: usize = 0;
    let mut p: u128 = 1;
    proof {
        assert(pow2(0) == 1);
    }
    while p <= m
        invariant
            p == pow2(b as nat),
            m < 0x1_0000_0000_0000_0000,
            b <= 64,
            p <= 0x1_0000_0000_0000_0000,
            b > 0 ==> pow2((b - 1) as nat) <= m,
            m >= 1,
            p >= 1,
        decreases 0x1_0000_0000_0000_0000 - p,
    {
        proof {
            assert(pow2((b + 1) as nat) == 2 * pow2(b as nat));
            lemma_pow2_64();
            if b >= 64 {
                assert(p == pow2(64));
            }
            assert(b < 64);
            lemma_pow2_mono((b + 1) as nat, 64);
        }
        p = p * 2;
        b = b + 1;
    }
    b
}

proof fn lemma_pow2_mono(a: nat, b: nat)
    requires
        a <= b,
    ensures
        pow2(a) <= pow2(b),
    decreases b,
{
    if a < b {
        lemma_pow2_mono(a, (b - 1) as nat);
    }
}

proof fn lemma_pow2_64()
    ensures
        pow2(64) == 0x1_0000_0000_0000_0000,
{
    reveal_with_fuel(pow2, 65);
}

/// The word `x` with the `w` bits at offset `o` replaced by `v`.
pub open spec fn word_insert(x: u64, o: u64, m: u64, v: u64) -> u64 {
    (x & !(m << o)) | (v << o)
}

/// The `w` bits of `x` at offset `o`, where `m` has the low `w` bits set.
pub open spec fn word_extract(x: u64, o: u64, m: u64) -> u64 {
    (x >> o) & m
}

proof fn lemma_word_roundtrip(x: u64, o: u64, w: u64, m: u64, v: u64)
    requires
        1 <= w < 64,
        o + w <= 64,
        m == (1u64 << w) - 1,
        v <= m,
    ensures
        word_extract(word_insert(x, o, m, v), o, m) == v,
{
    assert(((((x & !(m << o)) | (v << o)) >> o) & m) == v) by (bit_vector)
        requires
            1 <= w < 64,
            o + w <= 64,
            m == (1u64 << w) - 1,
            v <= m;
}

proof fn lemma_word_frame(x: u64, o1: u64, o2: u64, w: u64, m: u64, v: u64)
    requires
        1 <= w < 64,
        o1 + w <= 64,
        o2 + w <= 64,
        o1 + w <= o2 || o2 + w <= o1,
        m == (1u64 << w) - 1,
        v <= m,
    ensures
        word_extract(word_insert(x, o1, m, v), o2, m) == word_extract(x, o2, m),
{
    assert(((((x & !(m << o1)) | (v << o1)) >> o2) & m) == ((x >> o2) & m)) by (bit_vector)
        requires
            1 <= w < 64,
            o1 + w <= 64,
            o2 + w <= 64,
            o1 + w <= o2 || o2 + w <= o1,
            m == (1u64 << w) - 1,
            v <= m;
}

proof fn lemma_mask_bound(x: u64, o: u64, w: u64, m: u64)
    requires
        1 <= w < 64,
        m == (1u64 << w) - 1,
    ensures
        word_extract(x, o, m) <= m,
        (m as nat) + 1 == pow2(w as nat),
{
    assert(((x >> o) & m) <= m) by (bit_vector);
    lemma_shift_is_pow2(w);
}

proof fn lemma_shift_is_pow2(w: u64)
    requires
        w < 64,
    ensures
        (1u64 << w) as nat == pow2(w as nat),
    decreases w,
{
    if w == 0 {
        assert((1u64 << 0u64) == 1) by (bit_vector);
    } else {
        lemma_shift_is_pow2((w - 1) as u64);
        let p = (w - 1) as u64;
        assert((1u64 << w) == 2 * (1u64 << p)) by (bit_vector)
            requires
                w < 64,
                p == w - 1,
                w >= 1;
    }
}

/// How many indices `w` bits wide share one word.
pub open spec fn per_word(w: nat) -> nat {
    if w == 0 {
        0
    } else {
        64nat / w
    }
}

/// The word with the low `w` bits set.
pub open spec fn mask(w: nat) -> u64 {
    if w >= 64 {
        u64::MAX
    } else {
        ((1u64 << (w as u64)) - 1) as u64
    }
}

/// The index stored in slot `i` of `data`, for indices `w` bits wide.
pub open spec fn slot(data: Seq<u64>, w: nat, i: nat) -> nat {
    if w == 0 {
        0
    } else if w >= 64 {
        data[i as int] as nat
    } else {
        word_extract(data[(i / per_word(w)) as int], ((i % per_word(w)) * w) as u64, mask(w)) as nat
    }
}

/// Whether slot `i` lies inside `data`.
pub open spec fn has_slot(data: Seq<u64>, w: nat, i: nat) -> bool {
    w > 0 && i / per_word(w) < data.len()
}

/// The number of words that hold `n` slots.
pub open spec fn words_for(n: nat, w: nat) -> nat {
    if w == 0 {
        0
    } else {
        ((n + per_word(w) - 1) as nat) / per_word(w)
    }
}

proof fn lemma_geometry(w: nat, i: nat)
    requires
        1 <= w <= 64,
    ensures
        per_word(w) >= 1,
        per_word(w) * w <= 64,
        (i % per_word(w)) * w + w <= 64,
        w == 64 ==> per_word(w) == 1 && i / per_word(w) == i && i % per_word(w) == 0,
{
    let pw = per_word(w);
    assert(pw >= 1 && pw * w <= 64) by (nonlinear_arith)
        requires pw == 64nat / w, 1 <= w <= 64;
    assert((i % pw) * w + w <= 64) by (nonlinear_arith)
        requires pw >= 1, pw * w <= 64, 0 <= i % pw < pw, w >= 1;
    if w == 64 {
        assert(64nat / 64nat == 1) by (nonlinear_arith);
        assert(pw == 1);
    }
}

fn mask_for(w: usize) -> (r: u64)
    requires
        1 <= w <= 64,
    ensures
        r == mask(w as nat),
        w < 64 ==> r == (1u64 << (w as u64)) - 1,
{
    if w == 64 {
        u64::MAX
    } else {
        let one: u64 = 1;
        proof {
            lemma_shift_is_pow2(w as u64);
            lemma_pow2_pos(w as nat);
        }
        (one << (w as u64)) - 1
    }
}

proof fn lemma_pow2_pos(b: nat)
    ensures
        pow2(b) >= 1,
    decreases b,
{
    if b > 0 {
        lemma_pow2_pos((b - 1) as nat);
    }
}

/// Reads slot `item_index` of a bitfield whose indices are `bit_width` bits wide.
fn bitfield_extract(data: &Vec<u64>, bit_width: usize, item_index: usize) -> (r: u64)
    requires
        1 <= bit_width <= 64,
        has_slot(data@, bit_width as nat, item_index as nat),
    ensures
        r == slot(data@, bit_width as nat, item_index as nat),
        bit_width < 64 ==> r <= mask(bit_width as nat),
{
    proof { lemma_geometry(bit_width as nat, item_index as nat); }
    if bit_width == 64 {
        return data[item_index];
    }
    let per: usize = 64 / bit_width;
    let container_index = item_index / per;
    let bit_index = ((item_index % per) * bit_width) as u64;
    let m = mask_for(bit_width);
    proof { lemma_mask_bound(data@[container_index as int], bit_index, bit_width as u64, m); }
    (data[container_index] >> bit_index) & m
}

/// Writes `value` into slot `item_index`, leaving every other slot as it was.
fn bitfield_insert(data: &mut Vec<u64>, bit_width: usize, item_index: usize, value: u64)
    requires
        1 <= bit_width <= 64,
        has_slot(old(data)@, bit_width as nat, item_index as nat),
        bit_width < 64 ==> value <= mask(bit_width as nat),
    ensures
        final(data)@.len() == old(data)@.len(),
        forall|j: nat| #[trigger] has_slot(old(data)@, bit_width as nat, j) ==> slot(final(data)@, bit_width as nat, j)
            == if j == item_index as nat {
                value as nat
            } else {
                slot(old(data)@, bit_width as nat, j)
            },
{
    let ghost w = bit_width as nat;
    proof { lemma_geometry(w, item_index as nat); }
    if bit_width == 64 {
        data.set(item_index, value);
        proof {
            assert forall|j: nat| #[trigger] has_slot(old(data)@, w, j) implies slot(data@, w, j)
                == if j == item_index as nat { value as nat } else { slot(old(data)@, w, j) } by {
                lemma_geometry(w, j);
            }
        }
        return;
    }
    let per: usize = 64 / bit_width;
    let container_index = item_index / per;
    let bit_index = ((item_index % per) * bit_width) as u64;
    let m = mask_for(bit_width);
    let old_word = data[container_index];
    let new_word = (old_word & !(m << bit_index)) | (value << bit_index);
    data.set(container_index, new_word);
    proof {
        let pw = per_word(w);
        assert(per == pw);
        lemma_word_roundtrip(old_word, bit_index, bit_width as u64, m, value);
        assert forall|j: nat| #[trigger] has_slot(old(data)@, w, j) implies slot(data@, w, j)
            == if j == item_index as nat { value as nat } else { slot(old(data)@, w, j) } by {
            lemma_geometry(w, j);
            if j != item_index as nat {
                if j / pw == container_index as nat {
                    let oj = ((j % pw) * w) as u64;
                    assert(j % pw != item_index as nat % pw) by (nonlinear_arith)
                        requires j / pw == item_index as nat / pw, j != item_index as nat, pw >= 1;
                    let a = item_index as nat % pw;
                    let b = j % pw;
                    if a < b {
                        assert(a * w + w <= b * w) by (nonlinear_arith)
                            requires a + 1 <= b, w >= 1;
                    } else {
                        assert(b * w + w <= a * w) by (nonlinear_arith)
                            requires b + 1 <= a, w >= 1;
                    }
                    assert(bit_index as nat == a * w);
                    assert(oj as nat == b * w);
                    lemma_word_frame(old_word, bit_index, oj, bit_width as u64, m, value);
                }
            }
        }
    }
}

proof fn lemma_slot_exists(n: nat, w: nat, words: nat, i: nat)
    requires
        1 <= w <= 64,
        n <= words * per_word(w),
        i < n,
    ensures
        i / per_word(w) < words,
{
    lemma_geometry(w, i);
    let pw = per_word(w);
    assert(i / pw < words) by (nonlinear_arith)
        requires pw >= 1, i < words * pw;
}

proof fn lemma_words_enough(n: nat, w: nat)
    requires
        1 <= w <= 64,
    ensures
        n <= words_for(n, w) * per_word(w),
{
    lemma_geometry(w, 0);
    let pw = per_word(w);
    assert(n <= (((n + pw - 1) as nat) / pw) * pw) by (nonlinear_arith)
        requires pw >= 1;
}

proof fn lemma_fits(v: nat, bound: nat, w: nat)
    requires
        1 <= w < 64,
        v < bound,
        bound <= pow2(w),
    ensures
        v <= mask(w),
{
    lemma_shift_is_pow2(w as u64);
    lemma_pow2_pos(w);
}

/// A palette of values and, per item, the index of its value in the palette.
///
/// The indices are packed into words, `64 / bit_width` to a word; their width
/// grows with the palette.
#[derive(Debug)]
pub struct PalettedBitfield<T> {
    data: Vec<u64>,
    bit_width: usize,
    palette: Vec<T>,
    length: usize,
}

/// The larger of `n` and one.
pub open spec fn at_least_one(n: nat) -> nat {
    if n == 0 {
        1
    } else {
        n
    }
}

impl<T> PalettedBitfield<T> {
    /// The number of items.
    pub closed spec fn length(&self) -> nat {
        self.length as nat
    }

    /// The bits used per stored index.
    pub closed spec fn width(&self) -> nat {
        self.bit_width as nat
    }

    /// The distinct values, in the order they were first stored.
    pub closed spec fn palette(&self) -> Seq<T> {
        self.palette@
    }

    /// The palette index of item `i`.
    pub closed spec fn index_of(&self, i: nat) -> nat {
        slot(self.data@, self.bit_width as nat, i)
    }

    /// Whether the packed words have a slot for item `i`.
    pub closed spec fn holds_slot(&self, i: nat) -> bool {
        has_slot(self.data@, self.bit_width as nat, i)
    }

    /// The item at `i`: the palette value its index names, if the palette has one.
    pub open spec fn item(&self, i: nat) -> Option<T> {
        if self.index_of(i) < self.palette().len() {
            Some(self.palette()[self.index_of(i) as int])
        } else {
            None
        }
    }

    pub closed spec fn wf(&self) -> bool {
        &&& self.wf_layout()
        &&& self.palette@.len() <= pow2(self.bit_width as nat)
    }

    /// Every item has a slot and every slot names a palette value or zero.
    closed spec fn wf_layout(&self) -> bool {
        let w = self.bit_width as nat;
        &&& w <= 64
        &&& w == 0 ==> self.data@.len() == 0
        &&& w > 0 ==> self.length <= self.data@.len() * per_word(w)
        &&& forall|s: nat| #[trigger] has_slot(self.data@, w, s) ==> slot(self.data@, w, s) < at_least_one(self.palette@.len())
    }

    /// An empty container.
    pub fn new() -> (r: Self)
        ensures
            r.wf(),
            r.length() == 0,
            r.width() == 0,
            r.palette().len() == 0,
    {
        PalettedBitfield { data: Vec::new(), bit_width: 0, palette: Vec::new(), length: 0 }
    }

    /// An empty container whose indices start `bit_width` bits wide.
    pub fn with_bit_width(bit_width: usize) -> (r: Self)
        requires
            bit_width <= 64,
        ensures
            r.wf(),
            r.length() == 0,
            r.width() == bit_width,
            r.palette().len() == 0,
    {
        let r = PalettedBitfield { data: Vec::new(), bit_width, palette: Vec::new(), length: 0 };
        proof {
            lemma_pow2_pos(bit_width as nat);
            assert(r.data@.len() == 0);
            assert forall|s: nat| #[trigger] has_slot(r.data@, bit_width as nat, s) implies slot(r.data@, bit_width as nat, s) < at_least_one(r.palette@.len()) by {
                if bit_width > 0 {
                    lemma_geometry(bit_width as nat, s);
                    assert(s / per_word(bit_width as nat) >= 0);
                }
            }
            assert(r.wf_layout());
        }
        r
    }

    pub fn len(&self) -> (r: usize)
        ensures
            r == self.length(),
    {
        self.length
    }

    pub fn is_empty(&self) -> (r: bool)
        ensures
            r == (self.length() == 0),
    {
        self.length == 0
    }

    /// Changes the width of the stored indices, keeping every item's index.
    fn resize_bit_width(&mut self, new_bit_width: usize)
        requires
            old(self).wf_layout(),
            new_bit_width <= 64,
            at_least_one(old(self).palette().len()) <= pow2(new_bit_width as nat),
        ensures
            final(self).wf(),
            final(self).width() == new_bit_width,
            final(self).length() == old(self).length(),
            final(self).palette() == old(self).palette(),
            forall|i: nat| i < old(self).length() ==> #[trigger] final(self).index_of(i) == old(self).index_of(i),
    {
        if new_bit_width == self.bit_width {
            return;
        }
        proof { lemma_pow2_pos(new_bit_width as nat); }
        let ghost pl = at_least_one(self.palette@.len());
        if new_bit_width == 0 {
            proof {
                assert forall|i: nat| i < old(self).length() implies #[trigger] old(self).index_of(i) == 0 by {
                    if old(self).bit_width > 0 {
                        lemma_slot_exists(old(self).length as nat, old(self).bit_width as nat, old(self).data@.len(), i);
                        assert(has_slot(old(self).data@, old(self).bit_width as nat, i));
                    }
                }
            }
            self.data = Vec::new();
            self.bit_width = 0;
            return;
        }
        let old_bit_width = self.bit_width;
        let ghost nw = new_bit_width as nat;
        proof {
            lemma_words_enough(self.length as nat, nw);
            lemma_geometry(nw, 0);
        }
        let per: usize = 64 / new_bit_width;
        let words: usize = if self.length == 0 { 0 } else { (self.length - 1) / per + 1 };
        proof {
            let pw = per_word(nw);
            let n = self.length as nat;
            if n > 0 {
                assert(((n - 1) as nat) / pw + 1 == ((n + pw - 1) as nat) / pw) by (nonlinear_arith)
                    requires pw >= 1, n >= 1;
            } else {
                assert(((n + pw - 1) as nat) / pw == 0) by (nonlinear_arith)
                    requires pw >= 1, n == 0;
            }
        }
        let mut new_data: Vec<u64> = Vec::new();
        let mut k: usize = 0;
        while k < words
            invariant
                k <= words,
                new_data@.len() == k,
                forall|q: int| 0 <= q < k ==> #[trigger] new_data@[q] == 0u64,
            decreases words - k,
        {
            new_data.push(0);
            k = k + 1;
        }
        proof {
            assert forall|s: nat| #[trigger] has_slot(new_data@, nw, s) implies slot(new_data@, nw, s) == 0 by {
                lemma_geometry(nw, s);
                if nw < 64 {
                    let o = ((s % per_word(nw)) * nw) as u64;
                    let m = mask(nw);
                    assert(((0u64 >> o) & m) == 0) by (bit_vector);
                }
            }
        }
        let mut index: usize = 0;
        while index < self.length
            invariant
                *self == *old(self),
                self.wf_layout(),
                1 <= nw <= 64,
                nw == new_bit_width,
                old_bit_width == self.bit_width,
                pl == at_least_one(self.palette@.len()),
                pl <= pow2(nw),
                self.length <= new_data@.len() * per_word(nw),
                new_data@.len() == words,
                index <= self.length,
                forall|s: nat| #[trigger] has_slot(new_data@, nw, s) ==> slot(new_data@, nw, s) < pl,
                forall|i: nat| i < index ==> #[trigger] slot(new_data@, nw, i) == self.index_of(i),
            decreases self.length - index,
        {
            proof {
                lemma_slot_exists(self.length as nat, nw, new_data@.len(), index as nat);
            }
            let value: u64 = if old_bit_width == 0 {
                0
            } else {
                proof {
                    lemma_slot_exists(self.length as nat, old_bit_width as nat, self.data@.len(), index as nat);
                }
                bitfield_extract(&self.data, old_bit_width, index)
            };
            proof {
                if old_bit_width > 0 {
                    assert(has_slot(self.data@, old_bit_width as nat, index as nat));
                }
                assert(value as nat == self.index_of(index as nat));
                assert((value as nat) < pl);
                if nw < 64 {
                    lemma_fits(value as nat, pl, nw);
                }
            }
            let ghost before = new_data@;
            bitfield_insert(&mut new_data, new_bit_width, index, value);
            proof {
                assert forall|s: nat| #[trigger] has_slot(new_data@, nw, s) implies slot(new_data@, nw, s) < pl by {
                    assert(has_slot(before, nw, s));
                }
                assert forall|i: nat| i < index + 1 implies #[trigger] slot(new_data@, nw, i) == self.index_of(i) by {
                    lemma_slot_exists(self.length as nat, nw, new_data@.len(), i);
                    assert(has_slot(before, nw, i));
                }
            }
            index = index + 1;
        }
        self.data = new_data;
        self.bit_width = new_bit_width;
        proof {
            assert forall|i: nat| i < old(self).length() implies #[trigger] self.index_of(i) == old(self).index_of(i) by {}
        }
    }

    /// Sets the index width to what the palette needs, if it differs.
    fn check_size(&mut self)
        requires
            old(self).wf_layout(),
        ensures
            final(self).wf(),
            required_bits(final(self).palette().len(), final(self).width()),
            final(self).length() == old(self).length(),
            final(self).palette() == old(self).palette(),
            forall|i: nat| i < old(self).length() ==> #[trigger] final(self).index_of(i) == old(self).index_of(i),
    {
        let required_bits = get_required_bits(self.palette.len());
        proof {
            let n = self.palette@.len();
            if n > 1 {
                assert(at_least_one(n) <= pow2(required_bits as nat));
            } else {
                assert(pow2(0) == 1);
            }
        }
        if required_bits != self.bit_width {
            self.resize_bit_width(required_bits);
        } else {
            proof {
                let n = self.palette@.len();
                if n <= 1 {
                    lemma_pow2_pos(self.bit_width as nat);
                }
            }
        }
    }
}

impl<T: IdKey> PalettedBitfield<T> {
    /// The position of `item` in the palette, if it is there.
    fn get_pallete_index(&self, item: &T) -> (r: Option<usize>)
        ensures
            r is Some ==> r->0 < self.palette().len() && self.palette()[r->0 as int] == *item,
            r is None ==> !self.palette().contains(*item),
    {
        let mut index: usize = 0;
        while index < self.palette.len()
            invariant
                index <= self.palette@.len(),
                forall|j: int| 0 <= j < index ==> self.palette@[j] != *item,
            decreases self.palette.len() - index,
        {
            if self.palette[index].same_id(item) {
                return Some(index);
            }
            index = index + 1;
        }
        None
    }

    /// The position of `item` in the palette, adding it if it is new.
    fn get_or_add_pallete_index(&mut self, item: &T) -> (r: usize)
        requires
            old(self).wf(),
        ensures
            final(self).wf(),
            r < final(self).palette().len(),
            final(self).palette()[r as int] == *item,
            final(self).palette().len() >= old(self).palette().len(),
            forall|j: int| 0 <= j < old(self).palette().len() ==> #[trigger] final(self).palette()[j] == old(self).palette()[j],
            final(self).length() == old(self).length(),
            forall|i: nat| i < old(self).length() ==> #[trigger] final(self).index_of(i) == old(self).index_of(i),
    {
        match self.get_pallete_index(item) {
            Some(index) => index,
            None => {
                let ghost before = *self;
                self.palette.push(*item);
                proof {
                    let w = self.bit_width as nat;
                    assert forall|s: nat| #[trigger] has_slot(self.data@, w, s) implies slot(self.data@, w, s)
                        < at_least_one(self.palette@.len()) by {
                        assert(has_slot(before.data@, w, s));
                    }
                    assert forall|i: nat| i < before.length() implies #[trigger] self.index_of(i) == before.index_of(i) by {}
                }
                self.check_size();
                self.palette.len() - 1
            },
        }
    }

    /// The item at `index`, if `index` is below the length and names a palette value.
    pub fn get(&self, index: usize) -> (r: Option<&T>)
        requires
            self.wf(),
        ensures
            index >= self.length() ==> r is None,
            index < self.length() ==> (r is Some <==> self.item(index as nat) is Some),
            index < self.length() && r is Some ==> *r->0 == self.item(index as nat)->0,
    {
        if index >= self.length {
            return None;
        }
        if self.bit_width == 0 {
            if self.palette.len() > 0 {
                return Some(&self.palette[0]);
            }
            return None;
        }
        proof {
            lemma_slot_exists(self.length as nat, self.bit_width as nat, self.data@.len(), index as nat);
        }
        let palette_index = bitfield_extract(&self.data, self.bit_width, index);
        if palette_index < self.palette.len() as u64 {
            Some(&self.palette[palette_index as usize])
        } else {
            None
        }
    }

    /// Stores `item` at `index`, if `index` is below the length; returns whether it did.
    pub fn set(&mut self, index: usize, item: &T) -> (r: bool)
        requires
            old(self).wf(),
        ensures
            final(self).wf(),
            r == (index < old(self).length()),
            final(self).length() == old(self).length(),
            r ==> final(self).item(index as nat) == Some(*item),
            forall|j: nat| j < old(self).length() && j != index && #[trigger] old(self).item(j) is Some ==> final(self).item(j) == old(self).item(j),
    {
        if index >= self.length {
            return false;
        }
        let ghost before = *self;
        let palette_index = self.get_or_add_pallete_index(item);
        if self.bit_width == 0 {
            proof {
                assert(pow2(0) == 1);
                assert(palette_index == 0);
                assert(self.index_of(index as nat) == 0);
                assert forall|j: nat| j < before.length() && j != index && #[trigger] before.item(j) is Some implies self.item(j) == before.item(j) by {
                    assert(self.index_of(j) == before.index_of(j));
                }
            }
            return true;
        }
        let ghost w = self.bit_width as nat;
        let ghost mid = *self;
        proof {
            lemma_slot_exists(self.length as nat, w, self.data@.len(), index as nat);
            if w < 64 {
                lemma_fits(palette_index as nat, self.palette@.len(), w);
            }
        }
        bitfield_insert(&mut self.data, self.bit_width, index, palette_index as u64);
        proof {
            assert(has_slot(mid.data@, w, index as nat));
            assert(self.index_of(index as nat) == palette_index);
            assert forall|s: nat| #[trigger] has_slot(self.data@, w, s) implies slot(self.data@, w, s) < at_least_one(self.palette@.len()) by {
                assert(has_slot(mid.data@, w, s));
            }
            assert forall|j: nat| j < before.length() && j != index && #[trigger] before.item(j) is Some implies self.item(j) == before.item(j) by {
                lemma_slot_exists(self.length as nat, w, self.data@.len(), j);
                assert(has_slot(mid.data@, w, j));
                assert(mid.index_of(j) == before.index_of(j));
            }
        }
        true
    }

    /// Changes the number of items. Items below both lengths keep their values;
    /// new slots read as palette index zero, or as what an earlier, longer
    /// container held there.
    pub fn resize(&mut self, new_length: usize)
        requires
            old(self).wf(),
        ensures
            final(self).wf(),
            final(self).length() == new_length,
            final(self).palette() == old(self).palette(),
            forall|i: nat| i < old(self).length() && i < new_length ==> #[trigger] final(self).index_of(i) == old(self).index_of(i),
            forall|i: nat| i < new_length ==> #[trigger] final(self).index_of(i) == if old(self).holds_slot(i) {
                old(self).index_of(i)
            } else {
                0
            },
    {
        let ghost before = *self;
        if self.bit_width > 0 {
            let ghost w = self.bit_width as nat;
            proof {
                lemma_geometry(w, 0);
                lemma_words_enough(new_length as nat, w);
            }
            let per: usize = 64 / self.bit_width;
            let words: usize = if new_length == 0 { 0 } else { (new_length - 1) / per + 1 };
            proof {
                let pw = per_word(w);
                let n = new_length as nat;
                if n > 0 {
                    assert(((n - 1) as nat) / pw + 1 == ((n + pw - 1) as nat) / pw) by (nonlinear_arith)
                        requires pw >= 1, n >= 1;
                } else {
                    assert(((n + pw - 1) as nat) / pw == 0) by (nonlinear_arith)
                        requires pw >= 1, n == 0;
                }
            }
            if words <= self.data.len() {
                self.data.truncate(words);
            } else {
                while self.data.len() < words
                    invariant
                        self.palette == before.palette,
                        self.bit_width == before.bit_width,
                        self.length == before.length,
                        self.data@.len() <= words,
                        self.data@.len() >= before.data@.len(),
                        self.data@.subrange(0, before.data@.len() as int) == before.data@,
                        forall|q: int| before.data@.len() <= q < self.data@.len() ==> #[trigger] self.data@[q] == 0u64,
                    decreases words - self.data.len(),
                {
                    let ghost prev = self.data@;
                    self.data.push(0);
                    assert(self.data@.subrange(0, before.data@.len() as int) =~= prev.subrange(0, before.data@.len() as int));
                }
            }
            proof {
                assert forall|q: int| 0 <= q < self.data@.len() && q < before.data@.len() implies #[trigger] self.data@[q] == before.data@[q] by {
                    if words > before.data@.len() {
                        assert(self.data@.subrange(0, before.data@.len() as int)[q] == before.data@[q]);
                    }
                }
                assert(before.wf());
                assert forall|s: nat| #[trigger] has_slot(self.data@, w, s) implies slot(self.data@, w, s) < at_least_one(self.palette@.len()) by {
                    lemma_geometry(w, s);
                    let k = s / per_word(w);
                    if k < before.data@.len() {
                        assert(has_slot(before.data@, w, s));
                        assert(self.data@[k as int] == before.data@[k as int]);
                        assert(slot(self.data@, w, s) == slot(before.data@, w, s));
                        assert(before.wf_layout());
                        assert(w == before.bit_width as nat);
                        assert(slot(before.data@, w, s) < at_least_one(before.palette@.len()));
                        assert(self.palette@ == before.palette@);
                    } else {
                        assert(words > before.data@.len());
                        assert(self.data@[k as int] == 0u64);
                        if w < 64 {
                            let o = ((s % per_word(w)) * w) as u64;
                            let m = mask(w);
                            assert(((0u64 >> o) & m) == 0) by (bit_vector);
                        }
                    }
                }
                assert forall|i: nat| i < before.length() && i < new_length implies #[trigger] self.index_of(i) == before.index_of(i) by {
                    lemma_slot_exists(before.length as nat, w, before.data@.len(), i);
                    lemma_slot_exists(new_length as nat, w, words as nat, i);
                    lemma_geometry(w, i);
                    let k = i / per_word(w);
                    assert(self.data@[k as int] == before.data@[k as int]);
                    assert(slot(self.data@, w, i) == slot(before.data@, w, i));
                    assert(self.bit_width == before.bit_width);
                }
                assert forall|i: nat| i < new_length implies #[trigger] self.index_of(i) == if before.holds_slot(i) {
                    before.index_of(i)
                } else {
                    0
                } by {
                    lemma_slot_exists(new_length as nat, w, words as nat, i);
                    lemma_geometry(w, i);
                    let k = i / per_word(w);
                    if k < before.data@.len() {
                        assert(self.data@[k as int] == before.data@[k as int]);
                        assert(slot(self.data@, w, i) == slot(before.data@, w, i));
                    } else {
                        assert(words > before.data@.len());
                        assert(self.data@[k as int] == 0u64);
                        if w < 64 {
                            let o = ((i % per_word(w)) * w) as u64;
                            let m = mask(w);
                            assert(((0u64 >> o) & m) == 0) by (bit_vector);
                        }
                    }
                }
            }
        }
        let ghost mid = *self;
        self.length = new_length;
        proof {
            assert forall|i: nat| i < before.length() && i < new_length implies #[trigger] self.index_of(i) == before.index_of(i) by {
                assert(self.index_of(i) == mid.index_of(i));
            }
            assert forall|i: nat| i < new_length implies #[trigger] self.index_of(i) == if before.holds_slot(i) {
                before.index_of(i)
            } else {
                0
            } by {
                assert(self.index_of(i) == mid.index_of(i));
            }
            assert forall|s: nat| #[trigger] has_slot(self.data@, self.bit_width as nat, s) implies slot(self.data@, self.bit_width as nat, s)
                < at_least_one(self.palette@.len()) by {
                assert(has_slot(mid.data@, mid.bit_width as nat, s));
            }
            if self.bit_width > 0 {
                lemma_words_enough(new_length as nat, self.bit_width as nat);
            }
        }
    }

    /// Appends `item`.
    pub fn push(&mut self, item: &T)
        requires
            old(self).wf(),
            old(self).length() < usize::MAX,
        ensures
            final(self).wf(),
            final(self).length() == old(self).length() + 1,
            final(self).item(old(self).length()) == Some(*item),
            forall|j: nat| j < old(self).length() && #[trigger] old(self).item(j) is Some ==> final(self).item(j) == old(self).item(j),
    {
        let ghost before = *self;
        self.resize(self.length + 1);
        let ghost mid = *self;
        proof {
            assert forall|j: nat| j < before.length() && #[trigger] before.item(j) is Some implies mid.item(j) == before.item(j) by {
                assert(mid.index_of(j) == before.index_of(j));
            }
        }
        self.set(self.length - 1, item);
        proof {
            assert forall|j: nat| j < before.length() && #[trigger] before.item(j) is Some implies self.item(j) == before.item(j) by {
                assert(mid.item(j) == before.item(j));
            }
        }
    }

    /// Removes the last item and returns its value, if there is one.
    pub fn pop(&mut self) -> (r: Option<T>)
        requires
            old(self).wf(),
        ensures
            final(self).wf(),
            old(self).length() == 0 ==> r is None && final(self).length() == 0,
            old(self).length() > 0 ==> r == old(self).item((old(self).length() - 1) as nat) && final(self).length()
                == old(self).length() - 1,
            forall|j: nat| j + 1 < old(self).length() ==> #[trigger] final(self).item(j) == old(self).item(j),
    {
        if self.length == 0 {
            return None;
        }
        let item: Option<T> = match self.get(self.length - 1) {
            Some(v) => Some(*v),
            None => None,
        };
        let ghost before = *self;
        self.resize(self.length - 1);
        proof {
            assert forall|j: nat| j + 1 < before.length() implies #[trigger] self.item(j) == before.item(j) by {
                assert(self.index_of(j) == before.index_of(j));
            }
        }
        item
    }

    /// Every item in order; each must name a palette value.
    pub fn unpack(&self) -> (r: Vec<T>)
        requires
            self.wf(),
            forall|i: nat| i < self.length() ==> (#[trigger] self.item(i)) is Some,
        ensures
            r@.len() == self.length(),
            forall|i: int| 0 <= i < r@.len() ==> Some(#[trigger] r@[i]) == self.item(i as nat),
    {
        let mut result: Vec<T> = Vec::new();
        let mut index: usize = 0;
        while index < self.length
            invariant
                self.wf(),
                forall|i: nat| i < self.length() ==> (#[trigger] self.item(i)) is Some,
                index <= self.length,
                result@.len() == index,
                forall|i: int| 0 <= i < index ==> Some(#[trigger] result@[i]) == self.item(i as nat),
            decreases self.length - index,
        {
            let v = match self.get(index) {
                Some(v) => *v,
                None => {
                    proof { assert(self.item(index as nat) is Some); }
                    return result;
                },
            };
            result.push(v);
            index = index + 1;
        }
        result
    }

    /// A container holding `items` in order.
    pub fn with_items(items: &[T]) -> (r: Self)
        ensures
            r.wf(),
            r.length() == items@.len(),
            forall|i: nat| i < items@.len() ==> #[trigger] r.item(i) == Some(items@[i as int]),
    {
        let mut field = Self::new();
        field.resize(items.len());
        let mut index: usize = 0;
        while index < items.len()
            invariant
                field.wf(),
                field.length() == items@.len(),
                index <= items@.len(),
                forall|i: nat| i < index ==> #[trigger] field.item(i) == Some(items@[i as int]),
            decreases items.len() - index,
        {
            let ghost before = field;
            field.set(index, &items[index]);
            proof {
                assert forall|i: nat| i < index + 1 implies #[trigger] field.item(i) == Some(items@[i as int]) by {
                    if i < index {
                        assert(before.item(i) is Some);
                    }
                }
            }
            index = index + 1;
        }
        field
    }
}

} // verus!
