use vstd::prelude::*;
use vstd::utf8::{decode_utf8, encode_utf8, is_ascii_chars, valid_utf8};

use crate::bases::{
    bases_of, byte_class, classify, count_kind, is_base, is_base_byte, lemma_bases_of_concat,
    lemma_bases_of_len, lemma_bases_of_take, lemma_no_bases, BaseCounts, BaseKind,
};
use crate::error::FaiError;
use crate::text::utf8_to_string;

verus! {

/// The characters of a run of ASCII bytes.
pub open spec fn ascii_text(b: Seq<u8>) -> Seq<char> {
    b.map_values(|x: u8| x as char)
}

/// The text that the successive reads of a view return, one read for each
/// buffer size in `sizes`, when `bases` are the view's bases.
pub open spec fn successive_reads(bases: Seq<u8>, sizes: Seq<nat>) -> Seq<u8>
    decreases sizes.len(),
{
    if sizes.len() == 0 {
        Seq::empty()
    } else {
        let n = if sizes[0] < bases.len() {
            sizes[0] as int
        } else {
            bases.len() as int
        };
        bases.take(n) + successive_reads(bases.skip(n), sizes.drop_first())
    }
}

/// The sum of the buffer sizes.
pub open spec fn total_size(sizes: Seq<nat>) -> nat
    decreases sizes.len(),
{
    if sizes.len() == 0 {
        0
    } else {
        sizes[0] + total_size(sizes.drop_first())
    }
}

proof fn lemma_ascii_bases_utf8(b: Seq<u8>)
    requires
        forall|j: int| 0 <= j < b.len() ==> is_base_byte(#[trigger] b[j]),
    ensures
        valid_utf8(b),
        decode_utf8(b) == ascii_text(b),
{
    let chars = ascii_text(b);
    assert(is_ascii_chars(chars));
    vstd::utf8::is_ascii_chars_encode_utf8(chars);
    assert(encode_utf8(chars) =~= b);
    vstd::utf8::encode_utf8_valid_utf8(chars);
    vstd::utf8::encode_utf8_decode_utf8(chars);
}

/// Reading buffers of the given sizes one after another hands out a prefix
/// of the view's bases, of the total size or all of them, and so all of them
/// once the sizes add up to their number.
pub proof fn lemma_successive_reads(bases: Seq<u8>, sizes: Seq<nat>)
    ensures
        successive_reads(bases, sizes) == bases.take(
            if total_size(sizes) < bases.len() {
                total_size(sizes) as int
            } else {
                bases.len() as int
            },
        ),
        total_size(sizes) >= bases.len() ==> successive_reads(bases, sizes) == bases,
    decreases sizes.len(),
{
    if sizes.len() == 0 {
        assert(bases.take(0) =~= Seq::<u8>::empty());
    } else {
        let n = if sizes[0] < bases.len() {
            sizes[0] as int
        } else {
            bases.len() as int
        };
        lemma_successive_reads(bases.skip(n), sizes.drop_first());
        let t = total_size(sizes.drop_first());
        let m = if t < bases.skip(n).len() {
            t as int
        } else {
            bases.skip(n).len() as int
        };
        assert(bases.take(n) + bases.skip(n).take(m) =~= bases.take(n + m));
        assert(bases.take(bases.len() as int) =~= bases);
    }
}

/// A borrowed window on the bytes of a sequence file.
pub struct FastaView<'a>(&'a [u8]);

/// The bases of a view, handed out one by one.
pub struct Bases<'a> {
    rest: &'a [u8],
}

impl<'a> View for FastaView<'a> {
    type V = Seq<u8>;

    closed spec fn view(&self) -> Seq<u8> {
        self.0@
    }
}

impl<'a> View for Bases<'a> {
    type V = Seq<u8>;

    /// The bases not yet handed out.
    closed spec fn view(&self) -> Seq<u8> {
        bases_of(self.rest@)
    }
}

/// The first base of `s` at or after `from`, or `s.len()` where none is.
fn next_base(s: &[u8], from: usize) -> (r: usize)
    requires
        from <= s@.len(),
    ensures
        from <= r <= s@.len(),
        r < s@.len() ==> is_base_byte(s@[r as int]),
        bases_of(s@.skip(from as int)) == if r < s@.len() {
            seq![s@[r as int]] + bases_of(s@.skip(r + 1))
        } else {
            Seq::<u8>::empty()
        },
{
    let mut i: usize = from;
    while i < s.len() && !is_base(s[i])
        invariant
            from <= i <= s@.len(),
            forall|j: int| from <= j < i ==> !is_base_byte(#[trigger] s@[j]),
        decreases s@.len() - i,
    {
        i = i + 1;
    }
    proof {
        let pre = s@.subrange(from as int, i as int);
        assert forall|j: int| 0 <= j < pre.len() implies !is_base_byte(#[trigger] pre[j]) by {
            assert(pre[j] == s@[from + j]);
        }
        lemma_no_bases(pre);
        assert(s@.skip(from as int) =~= pre + s@.skip(i as int));
        lemma_bases_of_concat(pre, s@.skip(i as int));
        assert(Seq::<u8>::empty() + bases_of(s@.skip(i as int)) =~= bases_of(
            s@.skip(i as int),
        ));
        if i < s@.len() {
            assert(s@.skip(i as int) =~= seq![s@[i as int]] + s@.skip(i + 1));
            lemma_bases_of_concat(seq![s@[i as int]], s@.skip(i + 1));
            assert(seq![s@[i as int]].drop_last() =~= Seq::<u8>::empty());
            assert(seq![s@[i as int]].last() == s@[i as int]);
            assert(bases_of(Seq::<u8>::empty()) == Seq::<u8>::empty());
            assert(bases_of(seq![s@[i as int]]) =~= seq![s@[i as int]]);
        } else {
            assert(s@.skip(i as int) =~= Seq::<u8>::empty());
        }
    }
    i
}

impl<'a> Bases<'a> {
    /// The next base, or `None` once every base was handed out.
    pub fn next(&mut self) -> (r: Option<&'a u8>)
        ensures
            old(self)@.len() == 0 ==> r is None && final(self)@.len() == 0,
            old(self)@.len() > 0 ==> (r matches Some(b) && *b == old(self)@[0]),
            old(self)@.len() > 0 ==> final(self)@ == old(self)@.drop_first(),
    {
        let s = self.rest;
        let p = next_base(s, 0);
        assert(s@.skip(0) =~= s@);
        if p < s.len() {
            self.rest = &s[p + 1..s.len()];
            assert(s@.subrange(p + 1, s@.len() as int) =~= s@.skip(p + 1));
            assert((seq![s@[p as int]] + bases_of(s@.skip(p + 1))).drop_first() =~= bases_of(
                s@.skip(p + 1),
            ));
            Some(&s[p])
        } else {
            self.rest = &s[s.len()..s.len()];
            assert(s@.subrange(s@.len() as int, s@.len() as int) =~= Seq::<u8>::empty());
            None
        }
    }
}

impl<'a> FastaView<'a> {
    /// A view on exactly the bytes `bytes`.
    pub fn new(bytes: &'a [u8]) -> (r: FastaView<'a>)
        ensures
            r@ == bytes@,
    {
        FastaView(bytes)
    }

    /// Counts the bases of the view into the buckets A, C, G, T, N and other,
    /// upper and lower case alike.
    pub fn count_bases(&self) -> (r: BaseCounts)
        ensures
            forall|k: BaseKind| #[trigger] r.bucket(k) == count_kind(self@, k),
            r.total() == bases_of(self@).len(),
    {
        let s = self.0;
        let mut bc = BaseCounts { a: 0, c: 0, g: 0, t: 0, n: 0, other: 0 };
        let mut i: usize = 0;
        while i < s.len()
            invariant
                i <= s@.len(),
                forall|k: BaseKind| #[trigger] bc.bucket(k) == count_kind(s@.take(i as int), k),
                bc.total() == bases_of(s@.take(i as int)).len(),
            decreases s@.len() - i,
        {
            proof {
                lemma_bases_of_len(s@.take(i as int));
                lemma_bases_of_take(s@, i as int);
                assert(s@.take(i + 1).drop_last() =~= s@.take(i as int));
            }
            let ghost prev = bc;
            match classify(s[i]) {
                Some(BaseKind::A) => bc.a = bc.a + 1,
                Some(BaseKind::C) => bc.c = bc.c + 1,
                Some(BaseKind::G) => bc.g = bc.g + 1,
                Some(BaseKind::T) => bc.t = bc.t + 1,
                Some(BaseKind::N) => bc.n = bc.n + 1,
                Some(BaseKind::Other) => bc.other = bc.other + 1,
                None => {},
            }
            proof {
                assert(s@.take(i + 1).last() == s@[i as int]);
                assert forall|k: BaseKind| #[trigger]
                    bc.bucket(k) == count_kind(s@.take(i + 1), k) by {
                    assert(prev.bucket(k) == count_kind(s@.take(i as int), k));
                }
            }
            i = i + 1;
        }
        assert(s@.take(s@.len() as int) =~= s@);
        bc
    }

    /// The bases of the view, from its first byte on. Each call starts anew.
    pub fn bases(&self) -> (r: Bases<'a>)
        ensures
            r@ == bases_of(self@),
    {
        Bases { rest: self.0 }
    }

    /// The bases of the view as text, checked to be valid UTF-8; being ASCII
    /// letters and signs, they always are.
    pub fn to_string(&self) -> (r: Result<String, FaiError>)
        ensures
            r matches Ok(t) && t@ == ascii_text(bases_of(self@)),
    {
        let s = self.0;
        let mut out: Vec<u8> = Vec::new();
        let mut i: usize = 0;
        while i < s.len()
            invariant
                i <= s@.len(),
                out@ == bases_of(s@.take(i as int)),
            decreases s@.len() - i,
        {
            proof {
                lemma_bases_of_take(s@, i as int);
            }
            if is_base(s[i]) {
                out.push(s[i]);
            }
            i = i + 1;
        }
        assert(s@.take(s@.len() as int) =~= s@);
        proof {
            lemma_bases_of_len(s@);
            lemma_ascii_bases_utf8(out@);
        }
        match utf8_to_string(out) {
            Some(t) => Ok(t),
            None => Err(FaiError::Conversion),
        }
    }

    /// Copies the next bases of the view into `buf`, as many as fit, and
    /// moves the view past them and past the separators before them. Returns
    /// how many were copied: 0 once the view is exhausted.
    pub fn read(&mut self, buf: &mut [u8]) -> (r: usize)
        ensures
            r == if old(buf)@.len() < bases_of(old(self)@).len() {
                old(buf)@.len()
            } else {
                bases_of(old(self)@).len()
            },
            final(buf)@.len() == old(buf)@.len(),
            final(buf)@.take(r as int) == bases_of(old(self)@).take(r as int),
            final(buf)@.skip(r as int) == old(buf)@.skip(r as int),
            bases_of(final(self)@) == bases_of(old(self)@).skip(r as int),
            final(self)@ == old(self)@.skip(old(self)@.len() - final(self)@.len()),
            r < old(buf)@.len() ==> final(self)@.len() == 0,
            final(self)@.len() < old(self)@.len() && r == old(buf)@.len() ==> is_base_byte(
                old(self)@[old(self)@.len() - final(self)@.len() - 1],
            ),
    {
        let s = self.0;
        let cap = buf.len();
        let mut n: usize = 0;
        let mut i: usize = 0;
        assert(s@.skip(0) =~= s@);
        while n < cap && i < s.len()
            invariant
                i <= s@.len(),
                n <= cap == buf@.len() == old(buf)@.len(),
                bases_of(s@) == buf@.take(n as int) + bases_of(s@.skip(i as int)),
                buf@.skip(n as int) == old(buf)@.skip(n as int),
                i > 0 && n == cap ==> is_base_byte(s@[i - 1]),
            decreases s@.len() - i,
        {
            let p = next_base(s, i);
            if p < s.len() {
                let ghost before = buf@;
                buf[n] = s[p];
                proof {
                    assert(buf@.take(n + 1) =~= before.take(n as int).push(s@[p as int]));
                    assert(buf@.skip(n + 1) =~= before.skip(n as int).drop_first());
                    assert(old(buf)@.skip(n + 1) =~= old(buf)@.skip(n as int).drop_first());
                    assert(buf@.take(n + 1) + bases_of(s@.skip(p + 1)) =~= before.take(n as int)
                        + (seq![s@[p as int]] + bases_of(s@.skip(p + 1))));
                }
                n = n + 1;
                i = p + 1;
            } else {
                assert(s@.skip(s@.len() as int) =~= Seq::<u8>::empty());
                i = s.len();
            }
        }
        self.0 = &s[i..s.len()];
        proof {
            let b = bases_of(s@);
            let rest = bases_of(s@.skip(i as int));
            assert(b.take(n as int) =~= buf@.take(n as int));
            assert(b.skip(n as int) =~= rest);
            assert(s@.subrange(i as int, s@.len() as int) =~= s@.skip(i as int));
            if n < cap {
                assert(s@.skip(s@.len() as int) =~= Seq::<u8>::empty());
            }
        }
        n
    }
}

} // verus!
