//! The byte mutator: a session that yields each single-bit variant of a buffer in turn.
use vstd::arithmetic::div_mod::{
    lemma_fundamental_div_mod, lemma_fundamental_div_mod_converse, lemma_mod_pos_bound,
};
use vstd::prelude::*;
use vstd::slice::slice_to_vec;

verus! {

/// The byte `b` with bit `k` inverted (bit 0 is the least significant).
pub open spec fn flip_bit(b: u8, k: u8) -> u8 {
    b ^ ((1u8 << k) as u8)
}

/// The buffer `s` with bit `k` of the byte at position `p` inverted.
pub open spec fn flip_at(s: Seq<u8>, p: int, k: int) -> Seq<u8> {
    s.update(p, flip_bit(s[p], k as u8))
}

/// Every variant of `s` with one of the low `width` bits of one byte inverted, ordered by
/// byte position and then by bit index.
pub open spec fn variants(s: Seq<u8>, width: nat) -> Seq<Seq<u8>> {
    Seq::new(s.len() * width, |i: int| flip_at(s, i / (width as int), i % (width as int)))
}

/// `a` and `b` differ in exactly one bit: they have the same length and agree at every position
/// but one, where the two bytes differ in a single bit.
pub open spec fn one_bit_apart(a: Seq<u8>, b: Seq<u8>) -> bool {
    &&& a.len() == b.len()
    &&& exists|p: int|
        #![trigger a[p], b[p]]
        {
            &&& 0 <= p < a.len()
            &&& forall|q: int| 0 <= q < a.len() && q != p ==> a[q] == b[q]
            &&& exists|k: u8| k < 8 && #[trigger] (a[p] ^ b[p]) == (1u8 << k) as u8
        }
}

proof fn lemma_flip_bit(b: u8, k: u8, j: u8)
    by (bit_vector)
    requires
        k < 8,
        j < 8,
    ensures
        flip_bit(b, k) != b,
        k != j ==> flip_bit(b, k) != flip_bit(b, j),
        b ^ flip_bit(b, k) == (1u8 << k) as u8,
{
}

/// The variants of a buffer of length `L` under width `W` (7 or 8) number exactly `L * W`, are
/// pairwise distinct, and each differs from the buffer in exactly one bit.
pub proof fn lemma_variants_exact(s: Seq<u8>, width: nat)
    requires
        width == 7 || width == 8,
    ensures
        variants(s, width).len() == s.len() * width,
        forall|i: int, j: int|
            0 <= i < j < variants(s, width).len() ==> #[trigger] variants(s, width)[i]
                != #[trigger] variants(s, width)[j],
        forall|i: int|
            0 <= i < variants(s, width).len() ==> one_bit_apart(s, #[trigger] variants(s, width)[i]),
{
    let vs = variants(s, width);
    let w = width as int;
    assert forall|i: int, j: int| 0 <= i < j < vs.len() implies #[trigger] vs[i] != #[trigger] vs[j] by {
        lemma_variant_index(s.len() as int, w, i);
        lemma_variant_index(s.len() as int, w, j);
        let (p1, k1) = (i / w, i % w);
        let (p2, k2) = (j / w, j % w);
        lemma_flip_bit(s[p1], k1 as u8, k2 as u8);
        if p1 == p2 {
            assert(k1 != k2) by {
                lemma_fundamental_div_mod(i, w);
                lemma_fundamental_div_mod(j, w);
            }
        }
        assert(vs[i][p1] != vs[j][p1]);
    }
    assert forall|i: int| 0 <= i < vs.len() implies one_bit_apart(s, #[trigger] vs[i]) by {
        lemma_variant_index(s.len() as int, w, i);
        let (p, k) = (i / w, i % w);
        lemma_flip_bit(s[p], k as u8, 0);
        assert(s[p] ^ vs[i][p] == (1u8 << (k as u8)) as u8);
    }
}

proof fn lemma_variant_index(len: int, w: int, i: int)
    requires
        0 < w,
        0 <= len,
        0 <= i < len * w,
    ensures
        0 <= i / w < len,
        0 <= i % w < w,
{
    lemma_fundamental_div_mod(i, w);
    lemma_mod_pos_bound(i, w);
    assert(0 <= i / w < len) by (nonlinear_arith)
        requires
            i == w * (i / w) + i % w,
            0 <= i % w < w,
            0 <= i < len * w,
            0 < w,
    ;
}

/// A mutation session over an owned copy of its input.
///
/// It yields the variants of [`variants`] for its width (7 or 8), one per call of `next`, and
/// then nothing more.
#[derive(Clone, Debug)]
pub struct ByteIterator {
    input: Vec<u8>,
    pos: usize,
    bit: usize,
    max: usize,
}

impl ByteIterator {
    /// The buffer being mutated.
    pub closed spec fn input(&self) -> Seq<u8> {
        self.input@
    }

    /// How many low bits of each byte are flipped.
    pub closed spec fn width(&self) -> nat {
        self.max as nat
    }

    /// How many variants have been yielded so far.
    pub closed spec fn produced(&self) -> int {
        self.pos * self.max + self.bit
    }

    /// The cursor lies on a (position, bit) pair of the input, or just past the last byte.
    pub closed spec fn wf(&self) -> bool {
        &&& self.max == 7 || self.max == 8
        &&& self.bit < self.max
        &&& self.pos <= self.input@.len()
        &&& self.pos == self.input@.len() ==> self.bit == 0
    }

    /// The variants that are still to come, in order.
    pub open spec fn remaining(&self) -> Seq<Seq<u8>> {
        variants(self.input(), self.width()).skip(self.produced())
    }

    /// No variant is left to yield.
    pub open spec fn is_exhausted(&self) -> bool {
        self.remaining().len() == 0
    }

    proof fn lemma_produced_bounds(&self)
        requires
            self.wf(),
        ensures
            0 <= self.produced() <= self.input().len() * self.width(),
            self.produced() == self.input().len() * self.width() <==> self.pos
                == self.input@.len(),
    {
        let p = self.pos as int;
        let m = self.max as int;
        let b = self.bit as int;
        let l = self.input@.len() as int;
        assert(0 <= p * m + b) by (nonlinear_arith)
            requires
                0 <= p,
                0 <= m,
                0 <= b,
        ;
        if p < l {
            assert(p * m + b < l * m) by (nonlinear_arith)
                requires
                    0 <= p < l,
                    0 <= b < m,
            ;
        }
    }

    /// A session on a copy of `input` that flips the low `width` bits of each byte.
    pub fn new(input: &[u8], width: usize) -> (r: Self)
        requires
            width == 7 || width == 8,
        ensures
            r.wf(),
            r.input() == input@,
            r.width() == width,
            r.produced() == 0,
            r.remaining() == variants(input@, width as nat),
    {
        let r = ByteIterator { input: slice_to_vec(input), pos: 0, bit: 0, max: width };
        assert(r.produced() == 0);
        assert(r.remaining() =~= variants(input@, width as nat));
        r
    }

    /// Yields the next variant, or `None` once every variant has been yielded.
    pub fn next(&mut self) -> (r: Option<Vec<u8>>)
        requires
            old(self).wf(),
        ensures
            final(self).wf(),
            final(self).input() == old(self).input(),
            final(self).width() == old(self).width(),
            r is None <==> old(self).is_exhausted(),
            r is None ==> *final(self) == *old(self) && final(self).is_exhausted(),
            r is Some ==> {
                &&& r->0@ == old(self).remaining()[0]
                &&& final(self).produced() == old(self).produced() + 1
                &&& final(self).remaining() == old(self).remaining().drop_first()
            },
    {
        proof {
            self.lemma_produced_bounds();
        }
        if self.pos >= self.input.len() {
            None
        } else {
            let ghost k = self.produced();
            let ghost m = self.max as int;
            proof {
                lemma_fundamental_div_mod_converse(k, m, self.pos as int, self.bit as int);
            }
            let mut output = self.input.clone();
            let mask: u8 = 1u8 << (self.bit as u8);
            let b = output[self.pos];
            output[self.pos] = b ^ mask;
            let ghost before = *self;
            self.bit = self.bit + 1;
            if self.bit >= self.max {
                self.pos = self.pos + 1;
                self.bit = 0;
            }
            proof {
                let p = before.pos as int;
                let bt = before.bit as int;
                assert(self.produced() == k + 1) by (nonlinear_arith)
                    requires
                        self.produced() == if bt + 1 >= m {
                            (p + 1) * m
                        } else {
                            p * m + bt + 1
                        },
                        k == p * m + bt,
                        bt < m,
                ;
                self.lemma_produced_bounds();
                assert(output@ =~= before.remaining()[0]);
                assert(self.remaining() =~= before.remaining().drop_first());
            }
            Some(output)
        }
    }
}

} // verus!
