use vstd::prelude::*;

verus! {

/// Lowest byte of the band of bytes that count as bases.
pub const BASE_BAND_LOW: u8 = 64;

/// Highest byte of the band of bytes that count as bases.
pub const BASE_BAND_HIGH: u8 = 127;

/// Upper and lower case letters of the named buckets.
pub const UPPER_A: u8 = 65;
pub const LOWER_A: u8 = 97;
pub const UPPER_C: u8 = 67;
pub const LOWER_C: u8 = 99;
pub const UPPER_G: u8 = 71;
pub const LOWER_G: u8 = 103;
pub const UPPER_T: u8 = 84;
pub const LOWER_T: u8 = 116;
pub const UPPER_N: u8 = 78;
pub const LOWER_N: u8 = 110;

/// The bucket into which a base is counted, regardless of its case.
#[derive(Clone, Copy, Debug, PartialEq, Eq, Structural)]
pub enum BaseKind {
    A,
    C,
    G,
    T,
    N,
    Other,
}

/// The one classification of bytes: `None` for a byte outside the base band
/// (line separators among them), else the bucket of the base.
pub open spec fn byte_class(b: u8) -> Option<BaseKind> {
    if b < BASE_BAND_LOW || b > BASE_BAND_HIGH {
        None
    } else if b == UPPER_A || b == LOWER_A {
        Some(BaseKind::A)
    } else if b == UPPER_C || b == LOWER_C {
        Some(BaseKind::C)
    } else if b == UPPER_G || b == LOWER_G {
        Some(BaseKind::G)
    } else if b == UPPER_T || b == LOWER_T {
        Some(BaseKind::T)
    } else if b == UPPER_N || b == LOWER_N {
        Some(BaseKind::N)
    } else {
        Some(BaseKind::Other)
    }
}

/// A byte is a base when it lies in the base band.
pub open spec fn is_base_byte(b: u8) -> bool {
    byte_class(b) is Some
}

/// The bases of `s`, in order, with every other byte left out.
pub open spec fn bases_of(s: Seq<u8>) -> Seq<u8>
    decreases s.len(),
{
    if s.len() == 0 {
        Seq::empty()
    } else if is_base_byte(s.last()) {
        bases_of(s.drop_last()).push(s.last())
    } else {
        bases_of(s.drop_last())
    }
}

/// How many bases of `s` fall into bucket `k`.
pub open spec fn count_kind(s: Seq<u8>, k: BaseKind) -> nat
    decreases s.len(),
{
    if s.len() == 0 {
        0
    } else {
        count_kind(s.drop_last(), k) + if byte_class(s.last()) == Some(k) {
            1nat
        } else {
            0nat
        }
    }
}

/// Classifies one byte (see `byte_class`).
pub fn classify(b: u8) -> (r: Option<BaseKind>)
    ensures
        r == byte_class(b),
{
    if b < BASE_BAND_LOW || b > BASE_BAND_HIGH {
        None
    } else {
        if b == UPPER_A || b == LOWER_A {
            Some(BaseKind::A)
        } else if b == UPPER_C || b == LOWER_C {
            Some(BaseKind::C)
        } else if b == UPPER_G || b == LOWER_G {
            Some(BaseKind::G)
        } else if b == UPPER_T || b == LOWER_T {
            Some(BaseKind::T)
        } else if b == UPPER_N || b == LOWER_N {
            Some(BaseKind::N)
        } else {
            Some(BaseKind::Other)
        }
    }
}

/// Whether `b` is a base; line separators are not.
pub fn is_base(b: u8) -> (r: bool)
    ensures
        r == is_base_byte(b),
{
    classify(b).is_some()
}

/// The bases of two runs of bytes put together are the bases of each, in turn.
pub proof fn lemma_bases_of_concat(a: Seq<u8>, b: Seq<u8>)
    ensures
        bases_of(a + b) == bases_of(a) + bases_of(b),
    decreases b.len(),
{
    if b.len() == 0 {
        assert(a + b =~= a);
        assert(bases_of(a) + bases_of(b) =~= bases_of(a));
    } else {
        lemma_bases_of_concat(a, b.drop_last());
        assert((a + b).drop_last() =~= a + b.drop_last());
        assert((a + b).last() == b.last());
        if is_base_byte(b.last()) {
            assert(bases_of(a) + bases_of(b.drop_last()).push(b.last()) =~= (bases_of(a)
                + bases_of(b.drop_last())).push(b.last()));
        }
    }
}

/// Extending a prefix by one byte extends its bases by at most that byte.
pub proof fn lemma_bases_of_take(s: Seq<u8>, i: int)
    requires
        0 <= i < s.len(),
    ensures
        bases_of(s.take(i + 1)) == if is_base_byte(s[i]) {
            bases_of(s.take(i)).push(s[i])
        } else {
            bases_of(s.take(i))
        },
{
    assert(s.take(i + 1).drop_last() =~= s.take(i));
}

/// A run of bytes holds no more bases than bytes, and its bases are bases.
pub proof fn lemma_bases_of_len(s: Seq<u8>)
    ensures
        bases_of(s).len() <= s.len(),
        forall|j: int| 0 <= j < bases_of(s).len() ==> is_base_byte(#[trigger] bases_of(s)[j]),
    decreases s.len(),
{
    if s.len() > 0 {
        lemma_bases_of_len(s.drop_last());
    }
}

/// A run of bytes without a base has no bases.
pub proof fn lemma_no_bases(s: Seq<u8>)
    requires
        forall|j: int| 0 <= j < s.len() ==> !is_base_byte(#[trigger] s[j]),
    ensures
        bases_of(s) == Seq::<u8>::empty(),
    decreases s.len(),
{
    if s.len() > 0 {
        lemma_no_bases(s.drop_last());
    }
}

/// A run of bytes that starts with a base and holds no other holds one base.
pub proof fn lemma_one_base(s: Seq<u8>)
    requires
        s.len() >= 1,
        is_base_byte(s[0]),
        forall|j: int| 1 <= j < s.len() ==> !is_base_byte(#[trigger] s[j]),
    ensures
        bases_of(s).len() == 1,
{
    let rest = s.skip(1);
    assert forall|j: int| 0 <= j < rest.len() implies !is_base_byte(#[trigger] rest[j]) by {
        assert(rest[j] == s[j + 1]);
    }
    lemma_no_bases(rest);
    assert(s =~= seq![s[0]] + rest);
    lemma_bases_of_concat(seq![s[0]], rest);
    assert(seq![s[0]].drop_last() =~= Seq::<u8>::empty());
    assert(seq![s[0]].last() == s[0]);
    assert(bases_of(Seq::<u8>::empty()) == Seq::<u8>::empty());
}

/// Occurrences of A, C, G, T, N and of any other base in a view, without
/// regard to case.
#[derive(Debug, Clone, Copy, PartialEq, Eq, Structural)]
pub struct BaseCounts {
    pub a: usize,
    pub c: usize,
    pub g: usize,
    pub t: usize,
    pub n: usize,
    pub other: usize,
}

impl BaseCounts {
    /// The count of bucket `k`.
    pub open spec fn bucket(&self, k: BaseKind) -> int {
        match k {
            BaseKind::A => self.a as int,
            BaseKind::C => self.c as int,
            BaseKind::G => self.g as int,
            BaseKind::T => self.t as int,
            BaseKind::N => self.n as int,
            BaseKind::Other => self.other as int,
        }
    }

    /// The sum of all six buckets.
    pub open spec fn total(&self) -> int {
        self.a + self.c + self.g + self.t + self.n + self.other
    }
}

impl Default for BaseCounts {
    fn default() -> (r: BaseCounts)
        ensures
            r == (BaseCounts { a: 0, c: 0, g: 0, t: 0, n: 0, other: 0 }),
    {
        BaseCounts { a: 0, c: 0, g: 0, t: 0, n: 0, other: 0 }
    }
}

} // verus!
