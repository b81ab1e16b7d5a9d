use memmap2::Mmap;
use vstd::arithmetic::div_mod::{lemma_fundamental_div_mod, lemma_fundamental_div_mod_converse};
use vstd::prelude::*;

use crate::bases::{bases_of, is_base_byte, lemma_bases_of_concat, lemma_one_base};
use crate::error::FaiError;
use crate::index::{byte_pos, offset_spec, Fai, RecordModel};
use crate::view::FastaView;

verus! {

/// A read-only memory map of a whole file, carried as it is.
#[verifier::external_type_specification]
#[verifier::external_body]
pub struct ExMmap(Mmap);

/// The bytes that a read-only map holds. The map is made on the condition
/// that the file does not change while it is mapped, so they stay the same
/// for as long as the map lives.
pub uninterp spec fn mapped_bytes(m: Mmap) -> Seq<u8>;

/// Relies on `<Mmap as Deref>::deref`: the bytes of the map as a slice.
#[verifier::external_body]
fn map_slice(m: &Mmap) -> (r: &[u8])
    ensures
        r@ == mapped_bytes(*m),
{
    &m[..]
}

/// The bytes of the bases `[start, stop)` of record `tid` in `data`.
pub open spec fn view_spec(
    recs: Seq<RecordModel>,
    data: Seq<u8>,
    tid: int,
    start: int,
    stop: int,
) -> Result<Seq<u8>, FaiError> {
    if start > stop {
        Err(FaiError::InvalidRange)
    } else {
        match offset_spec(recs, tid, start, stop) {
            Err(e) => Err(e),
            Ok((a, b)) => if a <= b && b <= data.len() {
                Ok(data.subrange(a as int, b as int))
            } else {
                Err(FaiError::Range)
            },
        }
    }
}

/// The sequence of `r` is laid out in `data` as `r` says: each base stands
/// where `byte_pos` puts it, and the `line_width - line_bases` bytes after
/// each full line are no bases.
pub open spec fn layout_matches(r: RecordModel, data: Seq<u8>) -> bool {
    &&& r.line_bases > 0
    &&& r.line_bases <= r.line_width
    &&& byte_pos(r, r.len as int) <= data.len()
    &&& forall|c: int| 0 <= c < r.len ==> is_base_byte(#[trigger] data[byte_pos(r, c)])
    &&& forall|c: int, j: int|
        0 <= c < r.len && (c + 1) % (r.line_bases as int) == 0 && r.line_bases <= j
            < r.line_width ==> !is_base_byte(
            #[trigger] data[r.offset + (c / r.line_bases as int) * r.line_width + j],
        )
}

proof fn lemma_byte_pos_step(r: RecordModel, c: int)
    requires
        c >= 0,
        r.line_bases > 0,
        r.line_bases <= r.line_width,
    ensures
        c % (r.line_bases as int) + 1 < r.line_bases ==> byte_pos(r, c + 1) == byte_pos(r, c) + 1,
        c % (r.line_bases as int) + 1 == r.line_bases ==> byte_pos(r, c + 1) == r.offset + (c
            / r.line_bases as int) * r.line_width + r.line_width,
        c % (r.line_bases as int) + 1 <= r.line_bases,
        byte_pos(r, c + 1) >= byte_pos(r, c) + 1,
{
    let lb = r.line_bases as int;
    let lw = r.line_width as int;
    let q = c / lb;
    let m = c % lb;
    lemma_fundamental_div_mod(c, lb);
    assert(0 <= m < lb);
    assert(c + 1 == q * lb + m + 1) by (nonlinear_arith)
        requires
            c == lb * q + m,
    ;
    if m + 1 < lb {
        lemma_fundamental_div_mod_converse(c + 1, lb, q, m + 1);
    } else {
        assert(c + 1 == (q + 1) * lb + 0) by (nonlinear_arith)
            requires
                c + 1 == q * lb + m + 1,
                m + 1 == lb,
        ;
        lemma_fundamental_div_mod_converse(c + 1, lb, q + 1, 0);
        assert((q + 1) * lw == q * lw + lw) by (nonlinear_arith);
    }
}

proof fn lemma_byte_pos_monotone(r: RecordModel, a: int, b: int)
    requires
        0 <= a <= b,
        r.line_bases > 0,
        r.line_bases <= r.line_width,
    ensures
        byte_pos(r, a) + (b - a) <= byte_pos(r, b),
    decreases b - a,
{
    if a < b {
        lemma_byte_pos_monotone(r, a, b - 1);
        lemma_byte_pos_step(r, b - 1);
    }
}

proof fn lemma_one_base_step(r: RecordModel, data: Seq<u8>, c: int)
    requires
        layout_matches(r, data),
        0 <= c < r.len,
    ensures
        byte_pos(r, c) < byte_pos(r, c + 1) <= data.len(),
        bases_of(data.subrange(byte_pos(r, c), byte_pos(r, c + 1))).len() == 1,
{
    let lb = r.line_bases as int;
    let q = c / lb;
    let m = c % lb;
    lemma_byte_pos_step(r, c);
    lemma_byte_pos_monotone(r, c + 1, r.len as int);
    let seg = data.subrange(byte_pos(r, c), byte_pos(r, c + 1));
    assert(seg[0] == data[byte_pos(r, c)]);
    assert forall|j: int| 1 <= j < seg.len() implies !is_base_byte(#[trigger] seg[j]) by {
        assert(m + 1 == lb);
        assert(seg[j] == data[r.offset + q * r.line_width + (m + j)]);
        assert((c + 1) % lb == 0) by {
            lemma_fundamental_div_mod(c, lb);
            assert(c + 1 == (q + 1) * lb + 0) by (nonlinear_arith)
                requires
                    c == lb * q + m,
                    m + 1 == lb,
            ;
            lemma_fundamental_div_mod_converse(c + 1, lb, q + 1, 0);
        }
    }
    lemma_one_base(seg);
}

proof fn lemma_bases_between(r: RecordModel, data: Seq<u8>, s: int, e: int)
    requires
        layout_matches(r, data),
        0 <= s <= e <= r.len,
    ensures
        byte_pos(r, s) <= byte_pos(r, e) <= data.len(),
        bases_of(data.subrange(byte_pos(r, s), byte_pos(r, e))).len() == e - s,
    decreases e - s,
{
    lemma_byte_pos_monotone(r, s, e);
    lemma_byte_pos_monotone(r, e, r.len as int);
    if s == e {
        assert(data.subrange(byte_pos(r, s), byte_pos(r, e)) =~= Seq::<u8>::empty());
    } else {
        lemma_bases_between(r, data, s, e - 1);
        lemma_one_base_step(r, data, e - 1);
        let a = byte_pos(r, s);
        let b = byte_pos(r, e - 1);
        assert(data.subrange(a, byte_pos(r, e)) =~= data.subrange(a, b) + data.subrange(
            b,
            byte_pos(r, e),
        ));
        lemma_bases_of_concat(data.subrange(a, b), data.subrange(b, byte_pos(r, e)));
    }
}

/// A sequence file opened with its index.
pub struct IndexedFasta {
    mmap: Mmap,
    fasta_index: Fai,
}

impl IndexedFasta {
    /// The index is well formed.
    pub closed spec fn wf(&self) -> bool {
        self.fasta_index.wf()
    }

    /// The records of the index.
    pub closed spec fn index(&self) -> Seq<RecordModel> {
        self.fasta_index@
    }

    /// The bytes of the sequence file.
    pub closed spec fn data(&self) -> Seq<u8> {
        mapped_bytes(self.mmap)
    }

    /// Pairs a parsed index with the map of its sequence file.
    pub fn new(fasta_index: Fai, mmap: Mmap) -> (r: IndexedFasta)
        requires
            fasta_index.wf(),
        ensures
            r.wf(),
            r.index() == fasta_index@,
            r.data() == mapped_bytes(mmap),
    {
        IndexedFasta { mmap, fasta_index }
    }

    /// A view on the bases `[start, stop)` of sequence `tid`. Refused as an
    /// invalid range where `start > stop`; as out of range where `tid` names
    /// no sequence, `stop` exceeds its length, or the bytes do not lie within
    /// the file.
    pub fn view(&self, tid: usize, start: usize, stop: usize) -> (r: Result<FastaView<'_>, FaiError>)
        requires
            self.wf(),
        ensures
            match view_spec(self.index(), self.data(), tid as int, start as int, stop as int) {
                Ok(bytes) => r matches Ok(v) && v@ == bytes,
                Err(e) => r matches Err(e2) && e2 == e,
            },
    {
        if start > stop {
            return Err(FaiError::InvalidRange);
        }
        let (a, b) = match self.fasta_index.offset(tid, start, stop) {
            Ok(p) => p,
            Err(e) => {
                return Err(e);
            },
        };
        let bytes = map_slice(&self.mmap);
        if a <= b && b <= bytes.len() {
            Ok(FastaView::new(&bytes[a..b]))
        } else {
            Err(FaiError::Range)
        }
    }

    /// A view on the whole of sequence `tid`.
    pub fn view_tid(&self, tid: usize) -> (r: Result<FastaView<'_>, FaiError>)
        requires
            self.wf(),
        ensures
            tid >= self.index().len() ==> r matches Err(FaiError::Range),
            tid < self.index().len() ==> match view_spec(
                self.index(),
                self.data(),
                tid as int,
                0,
                self.index()[tid as int].len as int,
            ) {
                Ok(bytes) => r matches Ok(v) && v@ == bytes,
                Err(e) => r matches Err(e2) && e2 == e,
            },
    {
        let (a, b) = match self.fasta_index.offset_tid(tid) {
            Ok(p) => p,
            Err(e) => {
                return Err(e);
            },
        };
        let bytes = map_slice(&self.mmap);
        if a <= b && b <= bytes.len() {
            Ok(FastaView::new(&bytes[a..b]))
        } else {
            Err(FaiError::Range)
        }
    }

    /// The index of the file.
    pub fn fai(&self) -> (r: &Fai)
        requires
            self.wf(),
        ensures
            r@ == self.index(),
            r.wf(),
    {
        &self.fasta_index
    }
}

/// Where the file is laid out as the index says, a view on the bases
/// `[start, stop)` of a sequence, with `start <= stop <= length`, exists and
/// holds exactly `stop - start` bases.
pub proof fn lemma_view_base_count(fa: &IndexedFasta, tid: int, start: int, stop: int)
    requires
        0 <= tid < fa.index().len(),
        0 <= start <= stop <= fa.index()[tid].len,
        layout_matches(fa.index()[tid], fa.data()),
        fa.data().len() <= usize::MAX,
    ensures
        view_spec(fa.index(), fa.data(), tid, start, stop) matches Ok(bytes) && bases_of(bytes).len()
            == stop - start,
{
    let r = fa.index()[tid];
    lemma_bases_between(r, fa.data(), start, stop);
    lemma_byte_pos_monotone(r, 0, start);
    lemma_byte_pos_monotone(r, stop, r.len as int);
}

/// Where the file is laid out as the index says, the view on a whole
/// sequence holds as many bases as the sequence is long.
pub proof fn lemma_whole_view_base_count(fa: &IndexedFasta, tid: int)
    requires
        0 <= tid < fa.index().len(),
        layout_matches(fa.index()[tid], fa.data()),
        fa.data().len() <= usize::MAX,
    ensures
        view_spec(fa.index(), fa.data(), tid, 0, fa.index()[tid].len as int) matches Ok(bytes)
            && bases_of(bytes).len() == fa.index()[tid].len,
{
    lemma_view_base_count(fa, tid, 0, fa.index()[tid].len as int);
}


/// A view whose start lies after its stop is refused as an invalid range;
/// one that reaches past the end of its sequence, or names no sequence, as
/// out of range.
pub proof fn lemma_view_errors(fa: &IndexedFasta, tid: int, start: int, stop: int)
    ensures
        start > stop ==> view_spec(fa.index(), fa.data(), tid, start, stop) == Err::<
            Seq<u8>,
            FaiError,
        >(FaiError::InvalidRange),
        start <= stop && (tid < 0 || tid >= fa.index().len() || stop > fa.index()[tid].len)
            ==> view_spec(fa.index(), fa.data(), tid, start, stop) == Err::<Seq<u8>, FaiError>(
            FaiError::Range,
        ),
{
}

} // verus!
