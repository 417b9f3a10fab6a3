//! The text filter: a session that yields only the byte variants that are valid UTF-8.
use vstd::prelude::*;
use vstd::utf8::{decode_utf8, encode_utf8, encode_utf8_decode_utf8, valid_utf8};

use crate::byte_iter::{variants, ByteIterator};

verus! {

/// The texts that a filtered session yields from the byte buffers `vs`: those that are valid
/// UTF-8, decoded, in their order.
pub open spec fn texts(vs: Seq<Seq<u8>>) -> Seq<Seq<char>> {
    vs.filter(|v: Seq<u8>| valid_utf8(v)).map_values(|v: Seq<u8>| decode_utf8(v))
}

/// Taking one buffer off the front of `vs` takes its text, if it has one, off the front of
/// `texts(vs)`.
proof fn lemma_texts_prepend(v: Seq<u8>, rest: Seq<Seq<u8>>)
    ensures
        texts(seq![v] + rest) == if valid_utf8(v) {
            seq![decode_utf8(v)] + texts(rest)
        } else {
            texts(rest)
        },
{
    let p = |x: Seq<u8>| valid_utf8(x);
    let d = |x: Seq<u8>| decode_utf8(x);
    rest.lemma_filter_prepend(v, p);
    if valid_utf8(v) {
        assert((seq![v] + rest.filter(p)).map_values(d) =~= seq![decode_utf8(v)] + rest.filter(
            p,
        ).map_values(d));
    } else {
        assert(Seq::<Seq<u8>>::empty() + rest.filter(p) =~= rest.filter(p));
    }
}

/// Every text yielded by filtering the variants of `s` under `width` is the decoding of one of
/// those variants, and that variant is valid UTF-8.
pub proof fn lemma_texts_subset(s: Seq<u8>, width: nat)
    ensures
        forall|t: Seq<char>|
            #[trigger] texts(variants(s, width)).contains(t) ==> exists|j: int|
                0 <= j < variants(s, width).len() && valid_utf8(#[trigger] variants(s, width)[j])
                    && t == decode_utf8(variants(s, width)[j]),
{
    let vs = variants(s, width);
    let p = |x: Seq<u8>| valid_utf8(x);
    let f = vs.filter(p);
    assert forall|t: Seq<char>| #[trigger] texts(vs).contains(t) implies exists|j: int|
        0 <= j < vs.len() && valid_utf8(#[trigger] vs[j]) && t == decode_utf8(vs[j]) by {
        let i = choose|i: int| 0 <= i < texts(vs).len() && texts(vs)[i] == t;
        assert(f.contains(f[i]));
        vs.lemma_filter_contains_rev(p, f[i]);
        vs.lemma_filter_pred(p, i);
    }
}

/// Relies on `String::from_utf8`: it succeeds exactly on valid UTF-8 and keeps the bytes as
/// they are.
#[verifier::external_body]
fn decode(v: Vec<u8>) -> (r: Option<String>)
    ensures
        r is Some <==> valid_utf8(v@),
        r is Some ==> encode_utf8(r->0@) == v@,
{
    String::from_utf8(v).ok()
}

/// A filtering session: it pulls from one byte session and yields, decoded, only the buffers
/// that are valid UTF-8.
#[derive(Clone, Debug)]
pub struct StringIterator(ByteIterator);

impl StringIterator {
    /// The byte session being filtered.
    pub closed spec fn inner(&self) -> ByteIterator {
        self.0
    }

    /// The session is well formed.
    pub open spec fn wf(&self) -> bool {
        self.inner().wf()
    }

    /// The texts that are still to come, in order.
    pub open spec fn pending(&self) -> Seq<Seq<char>> {
        texts(self.inner().remaining())
    }

    /// No text is left to yield.
    pub open spec fn is_exhausted(&self) -> bool {
        self.pending().len() == 0
    }

    /// Wraps the byte session `inner`.
    pub fn new(inner: ByteIterator) -> (r: Self)
        ensures
            r.inner() == inner,
    {
        StringIterator(inner)
    }

    /// Yields the next variant that is valid UTF-8, or `None` once none is left.
    pub fn next(&mut self) -> (r: Option<String>)
        requires
            old(self).wf(),
        ensures
            final(self).wf(),
            final(self).inner().input() == old(self).inner().input(),
            final(self).inner().width() == old(self).inner().width(),
            r is None <==> old(self).is_exhausted(),
            r is None ==> final(self).is_exhausted() && final(self).inner().is_exhausted(),
            r is Some ==> r->0@ == old(self).pending()[0] && final(self).pending()
                == old(self).pending().drop_first(),
    {
        loop
            invariant
                self.wf(),
                self.inner().input() == old(self).inner().input(),
                self.inner().width() == old(self).inner().width(),
                self.pending() == old(self).pending(),
            decreases self.inner().remaining().len(),
        {
            let ghost before = self.inner().remaining();
            match self.0.next() {
                None => {
                    assert(self.inner().remaining() =~= Seq::<Seq<u8>>::empty());
                    assert(self.pending() =~= Seq::<Seq<char>>::empty());
                    return None;
                },
                Some(v) => {
                    let ghost bytes = v@;
                    proof {
                        assert(before =~= seq![bytes] + self.inner().remaining());
                        lemma_texts_prepend(bytes, self.inner().remaining());
                    }
                    match decode(v) {
                        Some(s) => {
                            proof {
                                encode_utf8_decode_utf8(s@);
                                assert(old(self).pending().drop_first() =~= self.pending());
                            }
                            return Some(s);
                        },
                        None => {},
                    }
                },
            }
        }
    }
}

} // verus!
