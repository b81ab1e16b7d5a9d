use indexmap::IndexMap;
use vstd::prelude::*;
use vstd::utf8::{decode_utf8, valid_utf8};

use crate::error::{FaiError, FaiField};
use crate::text::{
    lemma_split_bytes_nonempty, parse_nonzero, parse_nonzero_spec, parse_usize, parse_usize_spec,
    split_bytes, split_on, utf8_to_string,
};

verus! {

/// The line feed that ends an index line.
pub const NEWLINE: u8 = 10;

/// A carriage return that may stand before the line feed.
pub const CARRIAGE_RETURN: u8 = 13;

/// The column separator of the index.
pub const TAB: u8 = 9;

/// An insertion-ordered hash map, carried as it is.
#[verifier::external_type_specification]
#[verifier::external_body]
#[verifier::reject_recursive_types(K)]
#[verifier::reject_recursive_types(V)]
#[verifier::reject_recursive_types(S)]
pub struct ExIndexMap<K, V, S>(IndexMap<K, V, S>);

/// Names of sequences, each mapped to an id.
pub type NameMap = IndexMap<String, usize>;

/// The keys of a name map and the value stored for each.
pub uninterp spec fn name_table(m: IndexMap<String, usize>) -> Map<Seq<char>, usize>;

/// Relies on `IndexMap::new`: a new map holds no key.
#[verifier::external_body]
fn new_name_map() -> (r: NameMap)
    ensures
        name_table(r).dom() == Set::<Seq<char>>::empty(),
{
    IndexMap::new()
}

/// Relies on `IndexMap::get`: the value stored for an equal key, if any.
#[verifier::external_body]
fn name_map_get(m: &NameMap, k: &str) -> (r: Option<usize>)
    ensures
        name_table(*m).contains_key(k@) ==> r == Some(name_table(*m)[k@]),
        !name_table(*m).contains_key(k@) ==> r is None,
{
    m.get(k).copied()
}

/// Relies on `IndexMap::insert`: afterwards the key is present with the new
/// value, and every other key keeps its value.
#[verifier::external_body]
fn name_map_insert(m: &mut NameMap, k: String, v: usize)
    ensures
        name_table(*final(m)) == name_table(*old(m)).insert(k@, v),
{
    m.insert(k, v);
}

/// What the index says of one sequence.
pub struct RecordModel {
    pub name: Seq<char>,
    pub len: usize,
    pub offset: usize,
    pub line_bases: usize,
    pub line_width: usize,
}

/// The length, offset and line geometry of one sequence, with its name.
#[derive(Debug, Clone)]
pub struct FaiRecord {
    pub(crate) name: String,
    pub(crate) len: usize,
    pub(crate) offset: usize,
    pub(crate) line_bases: usize,
    pub(crate) line_width: usize,
}

impl View for FaiRecord {
    type V = RecordModel;

    closed spec fn view(&self) -> RecordModel {
        RecordModel {
            name: self.name@,
            len: self.len,
            offset: self.offset,
            line_bases: self.line_bases,
            line_width: self.line_width,
        }
    }
}

/// `l` without one trailing carriage return.
pub open spec fn strip_cr(l: Seq<u8>) -> Seq<u8> {
    if l.len() > 0 && l.last() == CARRIAGE_RETURN {
        l.drop_last()
    } else {
        l
    }
}

/// The lines of `text`: cut at each line feed, with a carriage return before
/// the line feed removed, and no line after a final line feed.
pub open spec fn lines_of(text: Seq<u8>) -> Seq<Seq<u8>> {
    let p = split_bytes(text, NEWLINE);
    let ended = p.drop_last().map_values(|l: Seq<u8>| strip_cr(l));
    if p.last().len() == 0 {
        ended
    } else {
        ended.push(p.last())
    }
}

/// One index line: five tab-separated columns, the name as UTF-8, then the
/// length, offset, bases per line (not zero) and bytes per line.
pub open spec fn parse_line_spec(line: Seq<u8>) -> Result<RecordModel, FaiError> {
    let f = split_bytes(line, TAB);
    if f.len() != 5 {
        Err(FaiError::Format)
    } else if !valid_utf8(f[0]) {
        Err(FaiError::Conversion)
    } else {
        match parse_usize_spec(f[1]) {
            Err(c) => Err(FaiError::Parse { field: FaiField::Length, cause: c }),
            Ok(len) => match parse_usize_spec(f[2]) {
                Err(c) => Err(FaiError::Parse { field: FaiField::Offset, cause: c }),
                Ok(offset) => match parse_nonzero_spec(f[3]) {
                    Err(c) => Err(FaiError::Parse { field: FaiField::LineBases, cause: c }),
                    Ok(line_bases) => match parse_usize_spec(f[4]) {
                        Err(c) => Err(FaiError::Parse { field: FaiField::LineWidth, cause: c }),
                        Ok(line_width) => Ok(
                            RecordModel {
                                name: decode_utf8(f[0]),
                                len,
                                offset,
                                line_bases,
                                line_width,
                            },
                        ),
                    },
                },
            },
        }
    }
}

/// The records of the lines, or the error of the first line that fails.
pub open spec fn parse_lines_spec(ls: Seq<Seq<u8>>) -> Result<Seq<RecordModel>, FaiError>
    decreases ls.len(),
{
    if ls.len() == 0 {
        Ok(Seq::empty())
    } else {
        match parse_lines_spec(ls.drop_last()) {
            Err(e) => Err(e),
            Ok(recs) => match parse_line_spec(ls.last()) {
                Err(e) => Err(e),
                Ok(r) => Ok(recs.push(r)),
            },
        }
    }
}

/// The records that an index text describes, in order.
pub open spec fn parse_index(text: Seq<u8>) -> Result<Seq<RecordModel>, FaiError> {
    parse_lines_spec(lines_of(text))
}

/// The id of the first record named `name`.
pub open spec fn first_index(recs: Seq<RecordModel>, name: Seq<char>) -> Option<int>
    decreases recs.len(),
{
    if recs.len() == 0 {
        None
    } else {
        match first_index(recs.drop_last(), name) {
            Some(i) => Some(i),
            None => if recs.last().name == name {
                Some(recs.len() - 1)
            } else {
                None
            },
        }
    }
}

/// Each name of the records, mapped to the id of its first record.
pub open spec fn lookup_table(recs: Seq<RecordModel>) -> Map<Seq<char>, usize> {
    Map::new(|k: Seq<char>| first_index(recs, k) is Some, |k: Seq<char>| first_index(recs, k)->Some_0 as usize)
}

/// The byte at which base `coord` of a sequence stands, or, for its length,
/// the byte after its last base.
pub open spec fn byte_pos(r: RecordModel, coord: int) -> int {
    r.offset + (coord / r.line_bases as int) * r.line_width + coord % (r.line_bases as int)
}

/// The byte interval of the bases `[start, stop)` of record `tid`.
pub open spec fn offset_spec(recs: Seq<RecordModel>, tid: int, start: int, stop: int) -> Result<
    (usize, usize),
    FaiError,
> {
    if tid < 0 || tid >= recs.len() || stop > recs[tid].len {
        Err(FaiError::Range)
    } else if byte_pos(recs[tid], start) > usize::MAX || byte_pos(recs[tid], stop) > usize::MAX {
        Err(FaiError::Range)
    } else {
        Ok((byte_pos(recs[tid], start) as usize, byte_pos(recs[tid], stop) as usize))
    }
}

/// The first record of a name bears that name, and no earlier record does;
/// where there is none, no record bears it.
pub proof fn lemma_first_index(recs: Seq<RecordModel>, name: Seq<char>)
    ensures
        first_index(recs, name) matches Some(i) ==> 0 <= i < recs.len() && recs[i].name == name
            && forall|j: int| 0 <= j < i ==> (#[trigger] recs[j]).name != name,
        first_index(recs, name) is None ==> forall|j: int|
            0 <= j < recs.len() ==> (#[trigger] recs[j]).name != name,
    decreases recs.len(),
{
    if recs.len() > 0 {
        lemma_first_index(recs.drop_last(), name);
        assert(forall|j: int| 0 <= j < recs.len() - 1 ==> recs.drop_last()[j] == recs[j]);
    }
}

proof fn lemma_parse_lines_prefix_err(ls: Seq<Seq<u8>>, k: int, e: FaiError)
    requires
        0 <= k <= ls.len(),
        parse_lines_spec(ls.take(k)) == Err::<Seq<RecordModel>, FaiError>(e),
    ensures
        parse_lines_spec(ls) == Err::<Seq<RecordModel>, FaiError>(e),
    decreases ls.len(),
{
    if k == ls.len() {
        assert(ls.take(k) =~= ls);
    } else {
        assert(ls.drop_last().take(k) =~= ls.take(k));
        lemma_parse_lines_prefix_err(ls.drop_last(), k, e);
    }
}

fn strip_cr_exec<'b>(l: &'b [u8]) -> (r: &'b [u8])
    ensures
        r@ == strip_cr(l@),
{
    if l.len() > 0 && l[l.len() - 1] == CARRIAGE_RETURN {
        &l[0..l.len() - 1]
    } else {
        l
    }
}

fn parse_line(line: &[u8]) -> (r: Result<FaiRecord, FaiError>)
    ensures
        match parse_line_spec(line@) {
            Ok(m) => r matches Ok(rec) && rec@ == m,
            Err(e) => r == Err::<FaiRecord, FaiError>(e),
        },
{
    let f = split_on(line, TAB);
    if f.len() != 5 {
        return Err(FaiError::Format);
    }
    let name = match utf8_to_string(vstd::slice::slice_to_vec(f[0])) {
        Some(s) => s,
        None => {
            return Err(FaiError::Conversion);
        },
    };
    let len = match parse_usize(f[1]) {
        Ok(v) => v,
        Err(c) => {
            return Err(FaiError::Parse { field: FaiField::Length, cause: c });
        },
    };
    let offset = match parse_usize(f[2]) {
        Ok(v) => v,
        Err(c) => {
            return Err(FaiError::Parse { field: FaiField::Offset, cause: c });
        },
    };
    let line_bases = match parse_nonzero(f[3]) {
        Ok(v) => v,
        Err(c) => {
            return Err(FaiError::Parse { field: FaiField::LineBases, cause: c });
        },
    };
    let line_width = match parse_usize(f[4]) {
        Ok(v) => v,
        Err(c) => {
            return Err(FaiError::Parse { field: FaiField::LineWidth, cause: c });
        },
    };
    Ok(FaiRecord { name, len, offset, line_bases, line_width })
}

/// The place of `coord` in the file (see `byte_pos`), where it fits a `usize`.
fn byte_position(rec: &FaiRecord, coord: usize) -> (r: Option<usize>)
    requires
        rec@.line_bases > 0,
    ensures
        r matches Some(p) ==> p == byte_pos(rec@, coord as int),
        r is None ==> byte_pos(rec@, coord as int) > usize::MAX,
{
    let q = coord / rec.line_bases;
    let m = coord % rec.line_bases;
    match q.checked_mul(rec.line_width) {
        None => {
            assert(byte_pos(rec@, coord as int) > usize::MAX) by (nonlinear_arith)
                requires
                    q * rec.line_width > usize::MAX,
                    byte_pos(rec@, coord as int) == rec.offset + q * rec.line_width + m,
                    m >= 0,
            ;
            None
        },
        Some(w) => match rec.offset.checked_add(w) {
            None => None,
            Some(a) => a.checked_add(m),
        },
    }
}

/// The parsed index: one record per line, in order, and a lookup from names
/// to ids.
#[derive(Debug)]
pub struct Fai {
    chromosomes: Vec<FaiRecord>,
    name_map: NameMap,
}

impl View for Fai {
    type V = Seq<RecordModel>;

    closed spec fn view(&self) -> Seq<RecordModel> {
        self.chromosomes@.map_values(|r: FaiRecord| r@)
    }
}

impl Fai {
    /// The lookup finds the first record of each name, and no record has
    /// zero bases per line.
    pub closed spec fn wf(&self) -> bool {
        &&& name_table(self.name_map) == lookup_table(self@)
        &&& forall|i: int| 0 <= i < self@.len() ==> (#[trigger] self@[i]).line_bases > 0
    }

    /// Parses an index text, one record per line.
    pub fn parse(text: &[u8]) -> (r: Result<Fai, FaiError>)
        ensures
            match parse_index(text@) {
                Ok(m) => r matches Ok(f) && f@ == m && f.wf(),
                Err(e) => r == Err::<Fai, FaiError>(e),
            },
    {
        let p = split_on(text, NEWLINE);
        proof {
            lemma_split_bytes_nonempty(text@, NEWLINE);
        }
        let ghost ls = lines_of(text@);
        let last = p.len() - 1;
        let count = if p[last].len() == 0 {
            last
        } else {
            p.len()
        };
        assert(ls.len() == count);
        let mut chromosomes: Vec<FaiRecord> = Vec::new();
        let mut name_map = new_name_map();
        let mut k: usize = 0;
        proof {
            assert(ls.take(0) =~= Seq::<Seq<u8>>::empty());
            assert(chromosomes@.map_values(|r: FaiRecord| r@) =~= Seq::<RecordModel>::empty());
            assert(lookup_table(Seq::<RecordModel>::empty()) =~= name_table(name_map));
        }
        while k < count
            invariant
                count == ls.len() <= p@.len(),
                last == p@.len() - 1,
                ls == lines_of(text@),
                p@.len() == split_bytes(text@, NEWLINE).len(),
                forall|j: int|
                    0 <= j < p@.len() ==> (#[trigger] p@[j])@ == split_bytes(text@, NEWLINE)[j],
                k <= count,
                chromosomes@.len() == k,
                parse_lines_spec(ls.take(k as int)) == Ok::<Seq<RecordModel>, FaiError>(
                    chromosomes@.map_values(|r: FaiRecord| r@),
                ),
                name_table(name_map) == lookup_table(chromosomes@.map_values(|r: FaiRecord| r@)),
                forall|i: int|
                    0 <= i < k ==> (#[trigger] chromosomes@[i])@.line_bases > 0,
            decreases count - k,
        {
            let line = if k < last {
                strip_cr_exec(p[k])
            } else {
                p[k]
            };
            assert(line@ == ls[k as int]);
            proof {
                assert(ls.take(k + 1).drop_last() =~= ls.take(k as int));
                assert(ls.take(k + 1).last() == ls[k as int]);
            }
            let rec = match parse_line(line) {
                Ok(rec) => rec,
                Err(e) => {
                    proof {
                        lemma_parse_lines_prefix_err(ls, k + 1, e);
                    }
                    return Err(e);
                },
            };
            let ghost before = chromosomes@.map_values(|r: FaiRecord| r@);
            proof {
                assert(rec@.line_bases > 0);
            }
            if name_map_get(&name_map, rec.name.as_str()).is_none() {
                name_map_insert(&mut name_map, rec.name.clone(), k);
            }
            chromosomes.push(rec);
            proof {
                let after = chromosomes@.map_values(|r: FaiRecord| r@);
                assert(after =~= before.push(rec@));
                assert(after.drop_last() =~= before);
                assert(lookup_table(after) =~= if first_index(before, rec@.name) is None {
                    lookup_table(before).insert(rec@.name, k)
                } else {
                    lookup_table(before)
                });
            }
            k = k + 1;
        }
        assert(ls.take(count as int) =~= ls);
        Ok(Fai { chromosomes, name_map })
    }

    /// The id of the first sequence named `name`.
    pub fn tid(&self, name: &str) -> (r: Option<usize>)
        requires
            self.wf(),
        ensures
            match first_index(self@, name@) {
                Some(i) => r == Some(i as usize),
                None => r is None,
            },
    {
        proof {
            lemma_first_index(self@, name@);
        }
        name_map_get(&self.name_map, name)
    }

    /// The name of sequence `tid`.
    pub fn name(&self, tid: usize) -> (r: Result<&String, FaiError>)
        ensures
            tid < self@.len() ==> (r matches Ok(s) && s@ == self@[tid as int].name),
            tid >= self@.len() ==> r matches Err(FaiError::Range),
    {
        if tid < self.chromosomes.len() {
            Ok(&self.chromosomes[tid].name)
        } else {
            Err(FaiError::Range)
        }
    }

    /// The length in bases of sequence `tid`.
    pub fn size(&self, tid: usize) -> (r: Result<usize, FaiError>)
        ensures
            tid < self@.len() ==> r == Ok::<usize, FaiError>(self@[tid as int].len),
            tid >= self@.len() ==> r == Err::<usize, FaiError>(FaiError::Range),
    {
        if tid < self.chromosomes.len() {
            Ok(self.chromosomes[tid].len)
        } else {
            Err(FaiError::Range)
        }
    }

    /// The names of all sequences, in the order of the index.
    pub fn names(&self) -> (r: Vec<&str>)
        ensures
            r@.len() == self@.len(),
            forall|i: int| 0 <= i < r@.len() ==> (#[trigger] r@[i])@ == self@[i].name,
    {
        let mut out: Vec<&str> = Vec::new();
        let mut i: usize = 0;
        while i < self.chromosomes.len()
            invariant
                i <= self@.len(),
                out@.len() == i,
                forall|j: int| 0 <= j < i ==> (#[trigger] out@[j])@ == self@[j].name,
            decreases self@.len() - i,
        {
            out.push(self.chromosomes[i].name.as_str());
            i = i + 1;
        }
        out
    }

    /// The byte interval of the bases `[start, stop)` of sequence `tid`.
    pub fn offset(&self, tid: usize, start: usize, stop: usize) -> (r: Result<(usize, usize), FaiError>)
        requires
            self.wf(),
        ensures
            r == offset_spec(self@, tid as int, start as int, stop as int),
    {
        if tid >= self.chromosomes.len() {
            return Err(FaiError::Range);
        }
        let chr = &self.chromosomes[tid];
        assert(chr@ == self@[tid as int]);
        if stop > chr.len {
            return Err(FaiError::Range);
        }
        match (byte_position(chr, start), byte_position(chr, stop)) {
            (Some(a), Some(b)) => Ok((a, b)),
            _ => Err(FaiError::Range),
        }
    }

    /// The byte interval of the whole of sequence `tid`.
    pub fn offset_tid(&self, tid: usize) -> (r: Result<(usize, usize), FaiError>)
        requires
            self.wf(),
        ensures
            tid < self@.len() ==> r == offset_spec(self@, tid as int, 0, self@[tid as int].len as int),
            tid >= self@.len() ==> r == Err::<(usize, usize), FaiError>(FaiError::Range),
    {
        if tid >= self.chromosomes.len() {
            return Err(FaiError::Range);
        }
        let len = self.chromosomes[tid].len;
        self.offset(tid, 0, len)
    }
}

/// Every name that `names` lists leads back, through `tid`, to a sequence of
/// that name.
pub proof fn lemma_names_round_trip(fai: &Fai, i: int)
    requires
        fai.wf(),
        0 <= i < fai@.len(),
    ensures
        first_index(fai@, fai@[i].name) matches Some(j) && 0 <= j < fai@.len() && fai@[j].name
            == fai@[i].name,
{
    lemma_first_index(fai@, fai@[i].name);
}

} // verus!
