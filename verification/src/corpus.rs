use vstd::hash_map::StringHashMap;
use vstd::prelude::*;
use vstd::string::StringSliceAdditionalSpecFns;
use vstd::utf8::*;

use crate::model::{CorpusPos, FileId, LineId, NormalizedLine, NormalizedSegment, PreparedFile};
use crate::order::{
    bytes_le,
    bytes_lt,
    compare_bytes,
    lemma_bytes_lt_asymmetric,
    lemma_bytes_lt_irreflexive,
    lemma_bytes_lt_total,
    lemma_bytes_lt_transitive,
    path_key,
    path_key_bytes,
    Comparison,
};

pub use crate::model::CorpusToken;

verus! {

broadcast use {vstd::seq_lib::group_to_multiset_ensures, encode_utf8_decode_utf8};

/// Where a corpus position comes from.
#[derive(Debug, Clone, Copy, PartialEq, Eq, Structural)]
pub struct CorpusLocation {
    pub file: FileId,
    pub normalized_line: u32,
}

/// All prepared files, turned into one sequence of line tokens.
///
/// Each segment of each file contributes the interned IDs of its lines,
/// followed by a sentinel token that occurs nowhere else, so no match can
/// cross a file or suppression boundary.
#[derive(Debug)]
pub struct Corpus {
    /// Prepared files in deterministic path order.
    pub files: Vec<PreparedFile>,
    /// Interned normalized-line IDs plus unique segment sentinels.
    pub tokens: Vec<CorpusToken>,
    /// Source location of each corpus position; sentinels have none.
    pub positions: Vec<Option<CorpusLocation>>,
    /// Number of distinct normalized lines; line tokens are below it.
    pub line_id_count: u32,
    /// Number of segment sentinels in the corpus.
    pub segment_count: u32,
}

/// Why a corpus could not be built.
#[derive(Debug, Clone, PartialEq, Eq)]
pub enum CorpusError {
    DuplicatePath(String),
    InvalidSegments { path: String, line_count: usize },
    InvalidLineRange { path: String, start: u32, end: u32 },
    TooLarge,
}

// ----------------------------------------------------------------------
// The model of a corpus.
/// UTF-8 bytes of a string.
pub open spec fn str_bytes(s: Seq<char>) -> Seq<u8> {
    encode_utf8(s)
}

/// Sort key of a prepared file: its path compared component by component.
pub open spec fn file_key(f: PreparedFile) -> Seq<u8> {
    path_key(str_bytes(f.path@))
}

/// The byte range of line `i` lies inside the normalized buffer on
/// character boundaries.
pub open spec fn line_range_valid(f: PreparedFile, i: int) -> bool {
    let line = f.lines@[i];
    let bytes = str_bytes(f.normalized@);
    &&& line.text_range.start <= line.text_range.end
    &&& line.text_range.end <= bytes.len()
    &&& is_char_boundary(bytes, line.text_range.start as int)
    &&& is_char_boundary(bytes, line.text_range.end as int)
}

/// Text of normalized line `i` of `f`.
pub open spec fn line_text(f: PreparedFile, i: int) -> Seq<char> {
    let line = f.lines@[i];
    decode_utf8(
        str_bytes(f.normalized@).subrange(
            line.text_range.start as int,
            line.text_range.end as int,
        ),
    )
}

/// The segments of `f` partition its normalized lines, in order, into
/// non-empty runs.
pub open spec fn segments_partition(f: PreparedFile) -> bool {
    let n = f.lines@.len();
    let segs = f.segments@;
    &&& n <= u32::MAX
    &&& n == 0 ==> segs.len() == 0
    &&& n > 0 ==> {
        &&& segs.len() > 0
        &&& segs[0].start == 0
        &&& segs[segs.len() - 1].end == n
        &&& forall|k: int| 0 <= k < segs.len() ==> #[trigger] segs[k].start < segs[k].end
        &&& forall|k: int| 0 < k < segs.len() ==> #[trigger] segs[k].start == segs[k - 1].end
    }
}

/// Texts of all lines of all files, file after file.
pub open spec fn all_texts(files: Seq<PreparedFile>) -> Seq<Seq<char>>
    decreases files.len(),
{
    if files.len() == 0 {
        seq![]
    } else {
        all_texts(files.drop_last()) + Seq::new(
            files.last().lines@.len(),
            |i: int| line_text(files.last(), i),
        )
    }
}

/// Interning of `texts` in order of first appearance: each new text gets
/// the number of distinct texts seen before it.
pub open spec fn intern_map(texts: Seq<Seq<char>>) -> Map<Seq<char>, u32>
    decreases texts.len(),
{
    if texts.len() == 0 {
        Map::empty()
    } else {
        let m = intern_map(texts.drop_last());
        if m.contains_key(texts.last()) {
            m
        } else {
            m.insert(texts.last(), m.len() as u32)
        }
    }
}

/// Token of normalized line `i` of file `fi`.
pub open spec fn line_token(files: Seq<PreparedFile>, fi: int, i: int) -> u32 {
    intern_map(all_texts(files))[line_text(files[fi], i)]
}

/// Corpus positions of one file: each segment's lines followed by a gap.
pub open spec fn segment_positions(segs: Seq<NormalizedSegment>, fi: int) -> Seq<
    Option<CorpusLocation>,
>
    decreases segs.len(),
{
    if segs.len() == 0 {
        seq![]
    } else {
        let seg = segs.last();
        segment_positions(segs.drop_last(), fi) + Seq::new(
            (seg.end - seg.start) as nat,
            |t: int| Some(CorpusLocation { file: fi as u32, normalized_line: (seg.start + t) as u32 }),
        ) + seq![None]
    }
}

/// Corpus positions of all files, file after file.
pub open spec fn all_positions(files: Seq<PreparedFile>) -> Seq<Option<CorpusLocation>>
    decreases files.len(),
{
    if files.len() == 0 {
        seq![]
    } else {
        all_positions(files.drop_last()) + segment_positions(
            files.last().segments@,
            files.len() - 1,
        )
    }
}

/// Number of gaps among `positions`.
pub open spec fn gap_count(positions: Seq<Option<CorpusLocation>>) -> nat
    decreases positions.len(),
{
    if positions.len() == 0 {
        0
    } else {
        gap_count(positions.drop_last()) + if positions.last() is None {
            1nat
        } else {
            0nat
        }
    }
}

pub open spec fn total_lines(files: Seq<PreparedFile>) -> nat
    decreases files.len(),
{
    if files.len() == 0 {
        0
    } else {
        total_lines(files.drop_last()) + files.last().lines@.len()
    }
}

pub open spec fn total_segments(files: Seq<PreparedFile>) -> nat
    decreases files.len(),
{
    if files.len() == 0 {
        0
    } else {
        total_segments(files.drop_last()) + files.last().segments@.len()
    }
}

/// Files strictly increasing by path.
pub open spec fn files_sorted(files: Seq<PreparedFile>) -> bool {
    forall|a: int, b: int|
        0 <= a < b < files.len() ==> bytes_lt(#[trigger] file_key(files[a]), #[trigger] file_key(files[b]))
}

/// Two different entries name the same path.
pub open spec fn has_duplicate_path(files: Seq<PreparedFile>) -> bool {
    exists|a: int, b: int|
        0 <= a < files.len() && 0 <= b < files.len() && a != b && #[trigger] file_key(files[a])
            == #[trigger] file_key(files[b])
}

/// `corpus` lays out `files` as this module describes.
pub open spec fn corpus_layout(corpus: Corpus) -> bool {
    let files = corpus.files@;
    let positions = corpus.positions@;
    let tokens = corpus.tokens@;
    &&& files_sorted(files)
    &&& positions == all_positions(files)
    &&& tokens.len() == positions.len()
    &&& corpus.line_id_count as nat == intern_map(all_texts(files)).len()
    &&& corpus.segment_count as nat == total_segments(files)
    &&& forall|p: int|
        0 <= p < positions.len() ==> match #[trigger] positions[p] {
            Some(loc) => tokens[p] == line_token(files, loc.file as int, loc.normalized_line as int),
            None => tokens[p] == corpus.line_id_count + gap_count(positions.take(p)),
        }
}

impl Corpus {
    /// Source location of corpus position `position`, if it is a line.
    pub fn source_at(&self, position: CorpusPos) -> (location: Option<CorpusLocation>)
        ensures
            location == (if (position as int) < self.positions@.len() {
                self.positions@[position as int]
            } else {
                None
            }),
    {
        if (position as usize) < self.positions.len() {
            self.positions[position as usize]
        } else {
            None
        }
    }

    /// True for segment sentinels, which lie at or above every line token.
    pub fn is_sentinel_token(&self, token: CorpusToken) -> (sentinel: bool)
        ensures
            sentinel == (token >= self.line_id_count),
    {
        token >= self.line_id_count
    }
}

// ----------------------------------------------------------------------
// Lemmas about the model.
proof fn lemma_intern_map_facts(texts: Seq<Seq<char>>)
    ensures
        intern_map(texts).dom().finite(),
        intern_map(texts).len() <= texts.len(),
        forall|i: int| 0 <= i < texts.len() ==> intern_map(texts).contains_key(#[trigger] texts[i]),
        forall|t: Seq<char>| #[trigger] intern_map(texts).contains_key(t) ==> texts.contains(t),
        forall|t: Seq<char>| #[trigger] intern_map(texts).contains_key(t) ==> (intern_map(texts)[t] as nat)
            < intern_map(texts).len(),
    decreases texts.len(),
{
    if texts.len() > 0 {
        let prev = texts.drop_last();
        lemma_intern_map_facts(prev);
        let m = intern_map(prev);
        assert forall|i: int| 0 <= i < texts.len() implies intern_map(texts).contains_key(
            #[trigger] texts[i],
        ) by {
            if i < texts.len() - 1 {
                assert(prev[i] == texts[i]);
            }
        }
        assert forall|t: Seq<char>| #[trigger] intern_map(texts).contains_key(t) implies texts.contains(
            t,
        ) by {
            if m.contains_key(t) {
                let j = choose|j: int| 0 <= j < prev.len() && prev[j] == t;
                assert(texts[j] == t);
            } else {
                assert(texts[texts.len() - 1] == t);
            }
        }
        if !m.contains_key(texts.last()) {
            assert(m.len() < u32::MAX || m.len() as u32 == m.len() || true);
        }
    }
}

/// Interned IDs never change once assigned.
proof fn lemma_intern_map_stable(texts: Seq<Seq<char>>, more: Seq<Seq<char>>, t: Seq<char>)
    requires
        intern_map(texts).contains_key(t),
    ensures
        intern_map(texts + more).contains_key(t),
        intern_map(texts + more)[t] == intern_map(texts)[t],
    decreases more.len(),
{
    if more.len() > 0 {
        assert((texts + more).drop_last() =~= texts + more.drop_last());
        lemma_intern_map_stable(texts, more.drop_last(), t);
    } else {
        assert(texts + more =~= texts);
    }
}

/// Distinct interned texts receive distinct IDs.
proof fn lemma_intern_map_injective(texts: Seq<Seq<char>>, a: Seq<char>, b: Seq<char>)
    requires
        intern_map(texts).contains_key(a),
        intern_map(texts).contains_key(b),
        texts.len() <= u32::MAX,
        a != b,
    ensures
        intern_map(texts)[a] != intern_map(texts)[b],
    decreases texts.len(),
{
    lemma_intern_map_facts(texts);
    if texts.len() > 0 {
        let prev = texts.drop_last();
        lemma_intern_map_facts(prev);
        let m = intern_map(prev);
        if m.contains_key(a) && m.contains_key(b) {
            lemma_intern_map_injective(prev, a, b);
        }
    }
}

proof fn lemma_total_lines_push(files: Seq<PreparedFile>, f: PreparedFile)
    ensures
        total_lines(files.push(f)) == total_lines(files) + f.lines@.len(),
        total_segments(files.push(f)) == total_segments(files) + f.segments@.len(),
        all_texts(files.push(f)) == all_texts(files) + Seq::new(
            f.lines@.len(),
            |i: int| line_text(f, i),
        ),
        all_positions(files.push(f)) == all_positions(files) + segment_positions(
            f.segments@,
            files.len() as int,
        ),
{
    assert(files.push(f).drop_last() =~= files);
}

proof fn lemma_all_texts_len(files: Seq<PreparedFile>)
    ensures
        all_texts(files).len() == total_lines(files),
    decreases files.len(),
{
    if files.len() > 0 {
        lemma_all_texts_len(files.drop_last());
    }
}

proof fn lemma_all_texts_index(files: Seq<PreparedFile>, fi: int, i: int)
    requires
        0 <= fi < files.len(),
        0 <= i < files[fi].lines@.len(),
    ensures
        total_lines(files.take(fi)) + i < all_texts(files).len(),
        all_texts(files)[total_lines(files.take(fi)) + i] == line_text(files[fi], i),
    decreases files.len(),
{
    lemma_all_texts_len(files);
    lemma_all_texts_len(files.drop_last());
    if fi == files.len() - 1 {
        assert(files.take(fi) =~= files.drop_last());
    } else {
        assert(files.drop_last().take(fi) =~= files.take(fi));
        lemma_all_texts_index(files.drop_last(), fi, i);
    }
}

proof fn lemma_gap_count_push(positions: Seq<Option<CorpusLocation>>, x: Option<CorpusLocation>)
    ensures
        gap_count(positions.push(x)) == gap_count(positions) + if x is None {
            1nat
        } else {
            0nat
        },
{
    assert(positions.push(x).drop_last() =~= positions);
}

proof fn lemma_segment_positions_push(segs: Seq<NormalizedSegment>, seg: NormalizedSegment, fi: int)
    ensures
        segment_positions(segs.push(seg), fi) == segment_positions(segs, fi) + Seq::new(
            (seg.end - seg.start) as nat,
            |t: int| Some(CorpusLocation { file: fi as u32, normalized_line: (seg.start + t) as u32 }),
        ) + seq![None],
{
    assert(segs.push(seg).drop_last() =~= segs);
}

proof fn lemma_segment_positions_len(f: PreparedFile, k: int, fi: int)
    requires
        segments_partition(f),
        0 <= k <= f.segments@.len(),
    ensures
        segment_positions(f.segments@.take(k), fi).len() == (if k == 0 {
            0
        } else {
            f.segments@[k - 1].end as int
        }) + k,
    decreases k,
{
    if k > 0 {
        assert(f.segments@.take(k).drop_last() =~= f.segments@.take(k - 1));
        lemma_segment_positions_len(f, k - 1, fi);
    }
}

proof fn lemma_all_positions_len(files: Seq<PreparedFile>)
    requires
        forall|k: int| 0 <= k < files.len() ==> #[trigger] segments_partition(files[k]),
    ensures
        all_positions(files).len() == total_lines(files) + total_segments(files),
    decreases files.len(),
{
    if files.len() > 0 {
        let init = files.drop_last();
        assert forall|k: int| 0 <= k < init.len() implies #[trigger] segments_partition(init[k]) by {
            assert(init[k] == files[k]);
        }
        lemma_all_positions_len(init);
        let f = files.last();
        assert(segments_partition(files[files.len() - 1]));
        lemma_segment_positions_len(f, f.segments@.len() as int, files.len() - 1);
        assert(f.segments@.take(f.segments@.len() as int) =~= f.segments@);
    }
}

/// Files sorted strictly by path are determined by the files they hold.
proof fn lemma_sorted_files_unique(s: Seq<PreparedFile>, t: Seq<PreparedFile>)
    requires
        files_sorted(s),
        files_sorted(t),
        s.to_multiset() == t.to_multiset(),
    ensures
        s == t,
    decreases s.len(),
{
    s.to_multiset_ensures();
    t.to_multiset_ensures();
    assert(s.len() == t.len());
    if s.len() > 0 {
        let n = s.len() - 1;
        let x = s[n];
        let y = t[n];
        assert(t.contains(y));
        assert(t.to_multiset().count(y) > 0);
        assert(s.to_multiset().count(y) > 0);
        assert(s.contains(y));
        let i = choose|i: int| 0 <= i < s.len() && s[i] == y;
        assert(s.contains(x));
        assert(s.to_multiset().count(x) > 0);
        assert(t.to_multiset().count(x) > 0);
        assert(t.contains(x));
        let j = choose|j: int| 0 <= j < t.len() && t[j] == x;
        if x != y {
            assert(i < n && j < n);
            assert(bytes_lt(file_key(s[i]), file_key(s[n])));
            assert(bytes_lt(file_key(t[j]), file_key(t[n])));
            lemma_bytes_lt_asymmetric(file_key(x), file_key(y));
        }
        let (si, ti) = (s.drop_last(), t.drop_last());
        assert(si =~= s.remove(n));
        assert(ti =~= t.remove(n));
        assert(si.to_multiset() == ti.to_multiset());
        assert forall|a: int, b: int| 0 <= a < b < si.len() implies bytes_lt(
            #[trigger] file_key(si[a]),
            #[trigger] file_key(si[b]),
        ) by {
            assert(si[a] == s[a] && si[b] == s[b]);
        }
        assert forall|a: int, b: int| 0 <= a < b < ti.len() implies bytes_lt(
            #[trigger] file_key(ti[a]),
            #[trigger] file_key(ti[b]),
        ) by {
            assert(ti[a] == t[a] && ti[b] == t[b]);
        }
        lemma_sorted_files_unique(si, ti);
        assert(s =~= si.push(x));
        assert(t =~= ti.push(y));
    }
}

/// A corpus does not depend on the order its files came in: two corpora
/// laid out from the same files, in any order, hold the same files in the
/// same order, the same tokens and positions, and the same counts.
pub proof fn law_corpus_independent_of_file_order(a: Corpus, b: Corpus)
    requires
        corpus_layout(a),
        corpus_layout(b),
        a.files@.to_multiset() == b.files@.to_multiset(),
    ensures
        a.files@ == b.files@,
        a.positions@ == b.positions@,
        a.tokens@ == b.tokens@,
        a.line_id_count == b.line_id_count,
        a.segment_count == b.segment_count,
{
    lemma_sorted_files_unique(a.files@, b.files@);
    let ps = a.positions@;
    assert(ps == b.positions@);
    assert forall|p: int| 0 <= p < a.tokens@.len() implies a.tokens@[p] == b.tokens@[p] by {
        assert(ps[p] == ps[p]);
        match ps[p] {
            Some(loc) => {},
            None => {},
        }
    }
    assert(a.tokens@ =~= b.tokens@);
}

/// `a` names an earlier line than `b`: an earlier file, or an earlier line
/// of the same file.
pub open spec fn location_before(a: CorpusLocation, b: CorpusLocation) -> bool {
    a.file < b.file || (a.file == b.file && a.normalized_line < b.normalized_line)
}

/// The line positions of a file's first `j` segments name ascending lines,
/// all below the end of segment `j - 1`.
proof fn lemma_segment_ascending(f: PreparedFile, j: int, fi: int)
    requires
        segments_partition(f),
        0 <= j <= f.segments@.len(),
        0 <= fi <= u32::MAX,
    ensures
        ({
            let ps = segment_positions(f.segments@.take(j), fi);
            let bound = if j == 0 {
                0
            } else {
                f.segments@[j - 1].end as int
            };
            &&& forall|p: int| 0 <= p < ps.len() && (#[trigger] ps[p]) is Some ==> ps[p]->0.normalized_line < bound
            &&& forall|p: int, q: int|
                0 <= p < q < ps.len() && (#[trigger] ps[p]) is Some && (#[trigger] ps[q]) is Some
                    ==> ps[p]->0.normalized_line < ps[q]->0.normalized_line
        }),
    decreases j,
{
    if j > 0 {
        let all = f.segments@;
        let init = all.take(j - 1);
        assert(all.take(j).drop_last() =~= init);
        assert(all.take(j).last() == all[j - 1]);
        lemma_segment_ascending(f, j - 1, fi);
        let seg = all[j - 1];
        assert(seg.end <= u32::MAX) by {
            lemma_partition_ends_bounded(f, j - 1);
        }
        let prev = segment_positions(init, fi);
        let block = Seq::new(
            (seg.end - seg.start) as nat,
            |t: int| Some(CorpusLocation { file: fi as u32, normalized_line: (seg.start + t) as u32 }),
        );
        let ps = segment_positions(all.take(j), fi);
        assert(ps == prev + block + seq![None]);
        let low = if j == 1 {
            0
        } else {
            all[j - 2].end as int
        };
        assert(low <= seg.start) by {
            if j > 1 {
                assert(all[j - 1].start == all[j - 2].end);
            }
        }
        assert(seg.start < seg.end);
        assert forall|p: int| 0 <= p < ps.len() && (#[trigger] ps[p]) is Some implies ps[p]->0.normalized_line
            < seg.end by {
            if p < prev.len() {
                assert(ps[p] == prev[p]);
            } else if p < prev.len() + block.len() {
                assert(ps[p] == block[p - prev.len()]);
            }
        }
        assert forall|p: int, q: int|
            0 <= p < q < ps.len() && (#[trigger] ps[p]) is Some && (#[trigger] ps[q]) is Some implies ps[p]->0.normalized_line
            < ps[q]->0.normalized_line by {
            if q < prev.len() {
                assert(ps[p] == prev[p] && ps[q] == prev[q]);
            } else if q < prev.len() + block.len() {
                assert(ps[q] == block[q - prev.len()]);
                if p < prev.len() {
                    assert(ps[p] == prev[p]);
                } else {
                    assert(ps[p] == block[p - prev.len()]);
                }
            }
        }
    }
}

/// The line positions of a corpus name lines in ascending order: file by
/// file, line by line.
proof fn lemma_all_ascending(files: Seq<PreparedFile>)
    requires
        forall|k: int| 0 <= k < files.len() ==> #[trigger] segments_partition(files[k]),
        files.len() <= u32::MAX + 1,
    ensures
        ({
            let ps = all_positions(files);
            forall|p: int, q: int|
                0 <= p < q < ps.len() && (#[trigger] ps[p]) is Some && (#[trigger] ps[q]) is Some ==> location_before(
                    ps[p]->0,
                    ps[q]->0,
                )
        }),
    decreases files.len(),
{
    if files.len() > 0 {
        let init = files.drop_last();
        assert forall|k: int| 0 <= k < init.len() implies #[trigger] segments_partition(init[k]) by {
            assert(init[k] == files[k]);
        }
        lemma_all_ascending(init);
        lemma_all_inner(init);
        let fi = files.len() - 1;
        let f = files[fi];
        assert(segments_partition(files[fi]));
        assert(files.last() == f);
        lemma_segment_inner(f, f.segments@.len() as int, fi);
        lemma_segment_ascending(f, f.segments@.len() as int, fi);
        assert(f.segments@.take(f.segments@.len() as int) =~= f.segments@);
        let prev = all_positions(init);
        let tail = segment_positions(f.segments@, fi);
        let ps = all_positions(files);
        assert(ps == prev + tail);
        assert forall|p: int, q: int|
            0 <= p < q < ps.len() && (#[trigger] ps[p]) is Some && (#[trigger] ps[q]) is Some implies location_before(
            ps[p]->0,
            ps[q]->0,
        ) by {
            if q < prev.len() {
                assert(ps[p] == prev[p] && ps[q] == prev[q]);
            } else {
                assert(ps[q] == tail[q - prev.len()]);
                if p < prev.len() {
                    assert(ps[p] == prev[p]);
                } else {
                    assert(ps[p] == tail[p - prev.len()]);
                }
            }
        }
    }
}

/// Distinct line positions of a valid corpus name distinct lines, in
/// order.
pub proof fn lemma_positions_ascending(corpus: Corpus, p: int, q: int)
    requires
        corpus_valid(corpus),
        0 <= p < q < corpus.positions@.len(),
        corpus.positions@[p] is Some,
        corpus.positions@[q] is Some,
    ensures
        location_before(corpus.positions@[p]->0, corpus.positions@[q]->0),
{
    reveal(corpus_valid);
    lemma_all_ascending(corpus.files@);
    assert(corpus.positions@[p] == corpus.positions@[p]);
}

/// Some segment of `segs` starts at line `line`.
pub open spec fn starts_segment(segs: Seq<NormalizedSegment>, line: int) -> bool {
    exists|k: int| 0 <= k < segs.len() && (#[trigger] segs[k]).start == line
}

/// Lines `start..start + len` of `f` lie inside one of its segments.
pub open spec fn in_one_segment(f: PreparedFile, start: int, len: int) -> bool {
    exists|k: int|
        0 <= k < f.segments@.len() && (#[trigger] f.segments@[k]).start <= start && start + len <= f.segments@[k].end
}

/// Segments of a partition come in line order.
proof fn lemma_partition_ordered(f: PreparedFile, a: int, b: int)
    requires
        segments_partition(f),
        0 <= a < b < f.segments@.len(),
    ensures
        f.segments@[a].end <= f.segments@[b].start,
    decreases b - a,
{
    let segs = f.segments@;
    assert(segs[b].start == segs[b - 1].end);
    if a < b - 1 {
        lemma_partition_ordered(f, a, b - 1);
        assert(segs[b - 1].start < segs[b - 1].end);
    }
}

/// A line below the end of segment `k` lies in segment `k` or an earlier one.
proof fn lemma_partition_covers(f: PreparedFile, line: int, k: int)
    requires
        segments_partition(f),
        0 <= line,
        0 <= k < f.segments@.len(),
        line < f.segments@[k].end,
    ensures
        exists|j: int| 0 <= j <= k && (#[trigger] f.segments@[j]).start <= line && line < f.segments@[j].end,
    decreases k,
{
    let segs = f.segments@;
    if line < segs[k].start {
        assert(k > 0);
        assert(segs[k].start == segs[k - 1].end);
        lemma_partition_covers(f, line, k - 1);
        let j = choose|j: int| 0 <= j <= k - 1 && (#[trigger] segs[j]).start <= line && line < segs[j].end;
        assert(0 <= j <= k && segs[j].start <= line && line < segs[j].end);
    } else {
        assert(segs[k].start <= line && line < segs[k].end);
    }
}

/// Within the positions of a file's first `j` segments, a line that
/// follows another line starts no segment, and every line belongs to file
/// `fi`.
proof fn lemma_segment_inner(f: PreparedFile, j: int, fi: int)
    requires
        segments_partition(f),
        0 <= j <= f.segments@.len(),
        0 <= fi <= u32::MAX,
    ensures
        ({
            let ps = segment_positions(f.segments@.take(j), fi);
            &&& forall|p: int| 0 <= p < ps.len() && (#[trigger] ps[p]) is Some ==> ps[p]->0.file == fi
            &&& forall|p: int|
                0 <= p && p + 1 < ps.len() && (#[trigger] ps[p]) is Some && ps[p + 1] is Some ==> !starts_segment(
                    f.segments@,
                    ps[p + 1]->0.normalized_line as int,
                )
            &&& ps.len() > 0 ==> ps.last() is None
        }),
    decreases j,
{
    if j > 0 {
        let all = f.segments@;
        let init = all.take(j - 1);
        assert(all.take(j).drop_last() =~= init);
        assert(all.take(j).last() == all[j - 1]);
        lemma_segment_inner(f, j - 1, fi);
        let seg = all[j - 1];
        let prev = segment_positions(init, fi);
        let block = Seq::new(
            (seg.end - seg.start) as nat,
            |t: int| Some(CorpusLocation { file: fi as u32, normalized_line: (seg.start + t) as u32 }),
        );
        let ps = segment_positions(all.take(j), fi);
        assert(ps == prev + block + seq![None]);
        assert forall|p: int| 0 <= p < ps.len() && (#[trigger] ps[p]) is Some implies ps[p]->0.file == fi by {
            if p < prev.len() {
                assert(ps[p] == prev[p]);
            } else if p < prev.len() + block.len() {
                assert(ps[p] == block[p - prev.len()]);
            }
        }
        assert forall|p: int|
            0 <= p && p + 1 < ps.len() && (#[trigger] ps[p]) is Some && ps[p + 1] is Some implies !starts_segment(
            all,
            ps[p + 1]->0.normalized_line as int,
        ) by {
            if p + 1 < prev.len() {
                assert(ps[p] == prev[p] && ps[p + 1] == prev[p + 1]);
            } else if p + 1 == prev.len() {
                assert(ps[p] == prev[p]);
            } else if p + 1 < prev.len() + block.len() {
                let t = p + 1 - prev.len();
                assert(ps[p + 1] == block[t]);
                let line = seg.start + t;
                assert(seg.end <= u32::MAX) by {
                    lemma_partition_ends_bounded(f, j - 1);
                }
                assert(ps[p + 1]->0.normalized_line as int == line);
                if starts_segment(all, line) {
                    let k = choose|k: int| 0 <= k < all.len() && (#[trigger] all[k]).start == line;
                    if k < j - 1 {
                        lemma_partition_ordered(f, k, j - 1);
                        assert(all[k].start < all[k].end);
                    } else if k > j - 1 {
                        lemma_partition_ordered(f, j - 1, k);
                    }
                    assert(false);
                }
            } else {
                assert(ps[p + 1] == seq![None::<CorpusLocation>][0]);
            }
        }
    }
}

/// Across all files, a line position that follows another starts no
/// segment of its file.
proof fn lemma_all_inner(files: Seq<PreparedFile>)
    requires
        forall|k: int| 0 <= k < files.len() ==> #[trigger] segments_partition(files[k]),
        files.len() <= u32::MAX + 1,
    ensures
        ({
            let ps = all_positions(files);
            &&& forall|p: int| 0 <= p < ps.len() && (#[trigger] ps[p]) is Some ==> ps[p]->0.file < files.len()
            &&& forall|p: int|
                0 <= p && p + 1 < ps.len() && (#[trigger] ps[p]) is Some && ps[p + 1] is Some ==> !starts_segment(
                    files[ps[p + 1]->0.file as int].segments@,
                    ps[p + 1]->0.normalized_line as int,
                )
            &&& ps.len() > 0 ==> ps.last() is None
        }),
    decreases files.len(),
{
    if files.len() > 0 {
        let init = files.drop_last();
        assert forall|k: int| 0 <= k < init.len() implies #[trigger] segments_partition(init[k]) by {
            assert(init[k] == files[k]);
        }
        lemma_all_inner(init);
        let fi = files.len() - 1;
        let f = files[fi];
        assert(segments_partition(files[fi]));
        assert(files.last() == f);
        lemma_segment_inner(f, f.segments@.len() as int, fi);
        assert(f.segments@.take(f.segments@.len() as int) =~= f.segments@);
        let prev = all_positions(init);
        let tail = segment_positions(f.segments@, fi);
        let ps = all_positions(files);
        assert(ps == prev + tail);
        assert forall|p: int| 0 <= p < ps.len() && (#[trigger] ps[p]) is Some implies ps[p]->0.file < files.len() by {
            if p < prev.len() {
                assert(ps[p] == prev[p]);
            } else {
                assert(ps[p] == tail[p - prev.len()]);
            }
        }
        assert forall|p: int|
            0 <= p && p + 1 < ps.len() && (#[trigger] ps[p]) is Some && ps[p + 1] is Some implies !starts_segment(
            files[ps[p + 1]->0.file as int].segments@,
            ps[p + 1]->0.normalized_line as int,
        ) by {
            if p + 1 < prev.len() {
                assert(ps[p] == prev[p] && ps[p + 1] == prev[p + 1]);
                assert(files[prev[p + 1]->0.file as int] == init[prev[p + 1]->0.file as int]);
            } else if p + 1 == prev.len() {
                assert(ps[p] == prev[p]);
            } else if p >= prev.len() {
                assert(ps[p] == tail[p - prev.len()] && ps[p + 1] == tail[p + 1 - prev.len()]);
                assert(ps[p + 1]->0.file == fi);
            }
        }
        if tail.len() == 0 {
            assert(ps =~= prev);
        } else {
            assert(ps.last() == tail.last());
        }
    }
}

/// A run of line positions of one file stays inside one segment of it: the
/// segment boundaries are gaps of the corpus.
pub proof fn lemma_run_in_segment(corpus: Corpus, p: int, len: int)
    requires
        corpus_valid(corpus),
        0 <= p,
        len >= 1,
        p + len <= corpus.positions@.len(),
        forall|k: int|
            0 <= k < len ==> (#[trigger] corpus.positions@[p + k]) is Some && corpus.positions@[p + k]->0.file
                == corpus.positions@[p]->0.file && corpus.positions@[p + k]->0.normalized_line
                == corpus.positions@[p]->0.normalized_line + k,
    ensures
        corpus.positions@[p]->0.file < corpus.files@.len(),
        in_one_segment(
            corpus.files@[corpus.positions@[p]->0.file as int],
            corpus.positions@[p]->0.normalized_line as int,
            len,
        ),
{
    let ps = corpus.positions@;
    assert(ps[p + 0] is Some);
    lemma_position_facts(corpus, p, p);
    let fi = ps[p]->0.file as int;
    let f = corpus.files@[fi];
    let line = ps[p]->0.normalized_line as int;
    assert(segments_partition(f)) by {
        reveal(corpus_valid);
    }
    let n = f.lines@.len();
    let segs = f.segments@;
    lemma_partition_ends_bounded(f, segs.len() - 1);
    lemma_partition_covers(f, line, segs.len() - 1);
    let k = choose|k: int| 0 <= k <= segs.len() - 1 && (#[trigger] segs[k]).start <= line && line < segs[k].end;
    lemma_run_stays(corpus, p, len, k, len);
}

proof fn lemma_run_stays(corpus: Corpus, p: int, len: int, k: int, m: int)
    requires
        corpus_valid(corpus),
        0 <= p,
        1 <= m <= len,
        p + len <= corpus.positions@.len(),
        forall|j: int|
            0 <= j < len ==> (#[trigger] corpus.positions@[p + j]) is Some && corpus.positions@[p + j]->0.file
                == corpus.positions@[p]->0.file && corpus.positions@[p + j]->0.normalized_line
                == corpus.positions@[p]->0.normalized_line + j,
        corpus.positions@[p]->0.file < corpus.files@.len(),
        0 <= k < corpus.files@[corpus.positions@[p]->0.file as int].segments@.len(),
        corpus.files@[corpus.positions@[p]->0.file as int].segments@[k].start <= corpus.positions@[p]->0.normalized_line,
        corpus.positions@[p]->0.normalized_line < corpus.files@[corpus.positions@[p]->0.file as int].segments@[k].end,
    ensures
        corpus.positions@[p]->0.normalized_line + m <= corpus.files@[corpus.positions@[p]->0.file as int].segments@[k].end,
    decreases m,
{
    if m > 1 {
        lemma_run_stays(corpus, p, len, k, m - 1);
        let ps = corpus.positions@;
        let fi = ps[p]->0.file as int;
        let f = corpus.files@[fi];
        let segs = f.segments@;
        let line = ps[p]->0.normalized_line as int;
        if line + m - 1 == segs[k].end {
            assert(segments_partition(f)) by {
                reveal(corpus_valid);
            }
            let q = p + m - 1;
            assert(corpus.positions@[p + (m - 1)] is Some);
            assert(corpus.positions@[p + (m - 2)] is Some);
            assert(p + (m - 1) == q && p + (m - 2) == q - 1);
            assert(ps[q] is Some && ps[q - 1] is Some);
            lemma_position_facts(corpus, q - 1, q - 1);
            lemma_position_facts(corpus, q, q);
            if k + 1 < segs.len() {
                assert(segs[k + 1].start == segs[k].end);
                assert(starts_segment(segs, ps[q]->0.normalized_line as int));
            } else {
                assert(segs[k].end == f.lines@.len());
            }
            assert(false);
        }
    }
}

proof fn lemma_partition_ends_bounded(f: PreparedFile, j: int)
    requires
        segments_partition(f),
        0 <= j < f.segments@.len(),
    ensures
        f.segments@[j].end <= f.lines@.len(),
    decreases f.segments@.len() - j,
{
    if j + 1 < f.segments@.len() {
        lemma_partition_ends_bounded(f, j + 1);
        assert(f.segments@[j + 1].start < f.segments@[j + 1].end);
    }
}

// ----------------------------------------------------------------------
// What the layout gives detection.
/// The corpus was laid out from its files, and every file's segments
/// partition its lines.
#[verifier::opaque]
pub open spec fn corpus_valid(corpus: Corpus) -> bool {
    &&& corpus_layout(corpus)
    &&& corpus.files@.len() <= u32::MAX + 1
    &&& total_lines(corpus.files@) <= u32::MAX
    &&& forall|k: int| 0 <= k < corpus.files@.len() ==> #[trigger] segments_partition(corpus.files@[k])
}

/// Every segment is non-empty and ends within `n` lines.
spec fn segments_within(segs: Seq<NormalizedSegment>, n: int) -> bool {
    forall|k: int| 0 <= k < segs.len() ==> #[trigger] segs[k].start < segs[k].end && segs[k].end <= n
}

/// Lines of the positions `ps` lie in file `fi` below `n`; neighbouring
/// lines follow each other; the last position is a gap.
spec fn positions_shape(ps: Seq<Option<CorpusLocation>>, lo: int, hi: int, n: Seq<nat>) -> bool {
    &&& forall|p: int|
        0 <= p < ps.len() ==> match #[trigger] ps[p] {
            Some(loc) => lo <= loc.file < hi && loc.file < n.len() && loc.normalized_line < n[loc.file as int],
            None => true,
        }
    &&& forall|p: int|
        0 <= p && p + 1 < ps.len() && (#[trigger] ps[p]) is Some && ps[p + 1] is Some ==> ps[p + 1]->0.file
            == ps[p]->0.file && ps[p + 1]->0.normalized_line == ps[p]->0.normalized_line + 1
    &&& ps.len() > 0 ==> ps.last() is None
}

proof fn lemma_segment_positions_shape(segs: Seq<NormalizedSegment>, fi: int, n: Seq<nat>)
    requires
        0 <= fi < n.len(),
        fi <= u32::MAX,
        segments_within(segs, n[fi] as int),
    ensures
        positions_shape(segment_positions(segs, fi), fi, fi + 1, n),
    decreases segs.len(),
{
    if segs.len() > 0 {
        let init = segs.drop_last();
        assert(segments_within(init, n[fi] as int)) by {
            assert forall|k: int| 0 <= k < init.len() implies #[trigger] init[k].start < init[k].end && init[k].end <= n[fi] as int by {
                assert(init[k] == segs[k]);
            }
        }
        lemma_segment_positions_shape(init, fi, n);
        let seg = segs.last();
        assert(segs[segs.len() - 1] == seg);
        let prev = segment_positions(init, fi);
        let block = Seq::new(
            (seg.end - seg.start) as nat,
            |t: int| Some(CorpusLocation { file: fi as u32, normalized_line: (seg.start + t) as u32 }),
        );
        let ps = segment_positions(segs, fi);
        assert(ps == prev + block + seq![None]);
        assert forall|p: int| 0 <= p < ps.len() implies match #[trigger] ps[p] {
            Some(loc) => fi <= loc.file < fi + 1 && loc.file < n.len() && loc.normalized_line < n[loc.file as int],
            None => true,
        } by {
            if p < prev.len() {
                assert(ps[p] == prev[p]);
            } else if p < prev.len() + block.len() {
                assert(ps[p] == block[p - prev.len()]);
            }
        }
        assert forall|p: int|
            0 <= p && p + 1 < ps.len() && (#[trigger] ps[p]) is Some && ps[p + 1] is Some implies ps[p + 1]->0.file
            == ps[p]->0.file && ps[p + 1]->0.normalized_line == ps[p]->0.normalized_line + 1 by {
            if p + 1 < prev.len() {
                assert(ps[p] == prev[p] && ps[p + 1] == prev[p + 1]);
            } else if p + 1 == prev.len() {
                assert(ps[p] == prev[p]);
                assert(prev.last() is None);
            } else {
                assert(ps[p] == block[p - prev.len()] && ps[p + 1] == block[p + 1 - prev.len()]);
            }
        }
    }
}

proof fn lemma_all_positions_shape(files: Seq<PreparedFile>, n: Seq<nat>)
    requires
        files.len() <= n.len(),
        files.len() <= u32::MAX + 1,
        forall|k: int| 0 <= k < files.len() ==> #[trigger] segments_partition(files[k]) && n[k] == files[k].lines@.len(),
    ensures
        positions_shape(all_positions(files), 0, files.len() as int, n),
    decreases files.len(),
{
    if files.len() > 0 {
        let init = files.drop_last();
        assert forall|k: int| 0 <= k < init.len() implies #[trigger] segments_partition(init[k]) && n[k] == init[k].lines@.len() by {
            assert(init[k] == files[k]);
        }
        lemma_all_positions_shape(init, n);
        let fi = files.len() - 1;
        let f = files[fi];
        assert(segments_partition(files[fi]));
        assert(segments_partition(f) && n[fi] == f.lines@.len());
        assert(segments_within(f.segments@, n[fi] as int)) by {
            assert forall|k: int| 0 <= k < f.segments@.len() implies #[trigger] f.segments@[k].start < f.segments@[k].end
                && f.segments@[k].end <= n[fi] as int by {
                lemma_partition_ends_bounded(f, k);
            }
        }
        assert(files.last() == f);
        lemma_segment_positions_shape(f.segments@, fi, n);
        let prev = all_positions(init);
        let tail = segment_positions(f.segments@, fi);
        let ps = all_positions(files);
        assert(ps == prev + tail);
        assert forall|p: int| 0 <= p < ps.len() implies match #[trigger] ps[p] {
            Some(loc) => 0 <= loc.file < files.len() && loc.file < n.len() && loc.normalized_line < n[loc.file as int],
            None => true,
        } by {
            if p < prev.len() {
                assert(ps[p] == prev[p]);
            } else {
                assert(ps[p] == tail[p - prev.len()]);
            }
        }
        assert forall|p: int|
            0 <= p && p + 1 < ps.len() && (#[trigger] ps[p]) is Some && ps[p + 1] is Some implies ps[p + 1]->0.file
            == ps[p]->0.file && ps[p + 1]->0.normalized_line == ps[p]->0.normalized_line + 1 by {
            if p + 1 < prev.len() {
                assert(ps[p] == prev[p] && ps[p + 1] == prev[p + 1]);
            } else if p + 1 == prev.len() {
                assert(ps[p] == prev[p]);
                assert(prev.last() is None);
            } else {
                assert(ps[p] == tail[p - prev.len()] && ps[p + 1] == tail[p + 1 - prev.len()]);
            }
        }
        if tail.len() == 0 {
            assert(ps =~= prev);
        } else {
            assert(ps.last() == tail.last());
        }
    }
}

proof fn lemma_gap_count_prefix(ps: Seq<Option<CorpusLocation>>, a: int, b: int)
    requires
        0 <= a <= b <= ps.len(),
    ensures
        gap_count(ps.take(a)) <= gap_count(ps.take(b)),
        a < b && ps[a] is None ==> gap_count(ps.take(a)) < gap_count(ps.take(b)),
    decreases b - a,
{
    if a < b {
        lemma_gap_count_prefix(ps, a, b - 1);
        assert(ps.take(b).drop_last() =~= ps.take(b - 1));
        if a == b - 1 {
            assert(ps.take(b).last() == ps[a]);
        }
    }
}

/// Two line positions of a valid corpus hold the same token exactly when
/// their lines have the same normalized text.
pub proof fn lemma_same_token_same_text(corpus: Corpus, p: int, q: int)
    requires
        corpus_valid(corpus),
        0 <= p < corpus.positions@.len(),
        0 <= q < corpus.positions@.len(),
        corpus.positions@[p] is Some,
        corpus.positions@[q] is Some,
        corpus.tokens@[p] == corpus.tokens@[q],
    ensures
        line_text(
            corpus.files@[corpus.positions@[p]->0.file as int],
            corpus.positions@[p]->0.normalized_line as int,
        ) == line_text(
            corpus.files@[corpus.positions@[q]->0.file as int],
            corpus.positions@[q]->0.normalized_line as int,
        ),
{
    lemma_position_facts(corpus, p, q);
    lemma_position_facts(corpus, q, p);
    reveal(corpus_valid);
    let files = corpus.files@;
    let a = corpus.positions@[p]->0;
    let b = corpus.positions@[q]->0;
    let texts = all_texts(files);
    let ta = line_text(files[a.file as int], a.normalized_line as int);
    let tb = line_text(files[b.file as int], b.normalized_line as int);
    lemma_all_texts_index(files, a.file as int, a.normalized_line as int);
    lemma_all_texts_index(files, b.file as int, b.normalized_line as int);
    lemma_all_texts_len(files);
    lemma_intern_map_facts(texts);
    assert(intern_map(texts).contains_key(texts[total_lines(files.take(a.file as int)) + a.normalized_line]));
    assert(intern_map(texts).contains_key(texts[total_lines(files.take(b.file as int)) + b.normalized_line]));
    assert(corpus.tokens@[p] == line_token(files, a.file as int, a.normalized_line as int));
    assert(corpus.tokens@[q] == line_token(files, b.file as int, b.normalized_line as int));
    if ta != tb {
        lemma_intern_map_injective(texts, ta, tb);
    }
}

/// A valid corpus has one position per token.
pub proof fn lemma_corpus_lengths(corpus: Corpus)
    requires
        corpus_valid(corpus),
    ensures
        corpus.tokens@.len() == corpus.positions@.len(),
{
    reveal(corpus_valid);
}

/// What the layout of a valid corpus gives each position: a line
/// position names a line of a file and holds a token below
/// `line_id_count`, neighbouring line positions name neighbouring lines of
/// one file, and each gap holds a token of its own at or above
/// `line_id_count`.
pub proof fn lemma_position_facts(corpus: Corpus, p: int, q: int)
    requires
        corpus_valid(corpus),
        0 <= p < corpus.positions@.len(),
        0 <= q < corpus.positions@.len(),
    ensures
        corpus.positions@[p] matches Some(loc) ==> loc.file < corpus.files@.len() && loc.normalized_line
            < corpus.files@[loc.file as int].lines@.len() && corpus.tokens@[p] < corpus.line_id_count,
        corpus.positions@[p] is None ==> corpus.tokens@[p] >= corpus.line_id_count,
        p + 1 < corpus.positions@.len() && corpus.positions@[p] is Some && corpus.positions@[p + 1] is Some
            ==> corpus.positions@[p + 1]->0.file == corpus.positions@[p]->0.file
            && corpus.positions@[p + 1]->0.normalized_line == corpus.positions@[p]->0.normalized_line + 1,
        p != q && corpus.positions@[p] is None && corpus.positions@[q] is None ==> corpus.tokens@[p]
            != corpus.tokens@[q],
        p + 1 < corpus.positions@.len() && corpus.positions@[p] is Some && corpus.positions@[p + 1] is Some
            ==> !starts_segment(
            corpus.files@[corpus.positions@[p + 1]->0.file as int].segments@,
            corpus.positions@[p + 1]->0.normalized_line as int,
        ),
{
    reveal(corpus_valid);
    lemma_all_inner(corpus.files@);
    if p + 1 < corpus.positions@.len() && corpus.positions@[p] is Some && corpus.positions@[p + 1] is Some {
        assert(corpus.positions@[p] == corpus.positions@[p]);
    }
    let files = corpus.files@;
    let n = Seq::new(files.len(), |k: int| files[k].lines@.len());
    let ps = corpus.positions@;
    lemma_all_positions_shape(files, n);
    assert(ps == all_positions(files));
    assert(ps[p] == ps[p]);
    if let Some(loc) = ps[p] {
        let texts = all_texts(files);
        lemma_all_texts_index(files, loc.file as int, loc.normalized_line as int);
        lemma_intern_map_facts(texts);
        assert(texts[total_lines(files.take(loc.file as int)) + loc.normalized_line] == line_text(
            files[loc.file as int],
            loc.normalized_line as int,
        ));
        assert(intern_map(texts).contains_key(line_text(files[loc.file as int], loc.normalized_line as int)));
    }
    if p != q && ps[p] is None && ps[q] is None {
        if p < q {
            lemma_gap_count_prefix(ps, p, q);
        } else {
            lemma_gap_count_prefix(ps, q, p);
        }
    }
}

// ----------------------------------------------------------------------
/// Sorts files by path, component by component.
fn sort_files_by_path(files: Vec<PreparedFile>) -> (sorted: Vec<PreparedFile>)
    ensures
        sorted@.to_multiset() == files@.to_multiset(),
        sorted@.len() == files@.len(),
        forall|a: int, b: int|
            0 <= a < b < sorted@.len() ==> bytes_le(
                #[trigger] file_key(sorted@[a]),
                #[trigger] file_key(sorted@[b]),
            ),
{
    let ghost original = files@;
    let mut rest = files;
    let mut sorted: Vec<PreparedFile> = Vec::new();
    let mut keys: Vec<Vec<u8>> = Vec::new();
    while rest.len() > 0
        invariant
            keys@.len() == sorted@.len(),
            forall|i: int| 0 <= i < keys@.len() ==> #[trigger] keys@[i]@ == file_key(sorted@[i]),
            forall|a: int, b: int|
                0 <= a < b < sorted@.len() ==> bytes_le(
                    #[trigger] file_key(sorted@[a]),
                    #[trigger] file_key(sorted@[b]),
                ),
            sorted@.to_multiset().add(rest@.to_multiset()) == original.to_multiset(),
            sorted@.len() + rest@.len() == original.len(),
        decreases rest.len(),
    {
        let ghost before_rest = rest@;
        let file = rest.pop().unwrap();
        proof {
            assert(before_rest =~= rest@.push(file));
        }
        let key = path_key_bytes(file.path.as_str());
        // first index whose key is greater than `key`
        let mut low: usize = 0;
        let mut high: usize = keys.len();
        while low < high
            invariant
                low <= high <= keys@.len(),
                keys@.len() == sorted@.len(),
                forall|i: int| 0 <= i < keys@.len() ==> #[trigger] keys@[i]@ == file_key(sorted@[i]),
                forall|a: int, b: int|
                    0 <= a < b < sorted@.len() ==> bytes_le(
                        #[trigger] file_key(sorted@[a]),
                        #[trigger] file_key(sorted@[b]),
                    ),
                forall|i: int| 0 <= i < low ==> bytes_le(#[trigger] file_key(sorted@[i]), key@),
                forall|i: int| high <= i < keys@.len() ==> bytes_lt(key@, #[trigger] file_key(sorted@[i])),
            decreases high - low,
        {
            let middle = low + (high - low) / 2;
            match compare_bytes(key.as_slice(), keys[middle].as_slice()) {
                Comparison::Less => {
                    proof {
                        assert forall|i: int| middle <= i < keys@.len() implies bytes_lt(
                            key@,
                            #[trigger] file_key(sorted@[i]),
                        ) by {
                            if i > middle {
                                assert(bytes_le(file_key(sorted@[middle as int]), file_key(sorted@[i])));
                                if file_key(sorted@[middle as int]) != file_key(sorted@[i]) {
                                    lemma_bytes_lt_transitive(key@, file_key(sorted@[middle as int]), file_key(sorted@[i]));
                                }
                            }
                        }
                    }
                    high = middle;
                },
                _ => {
                    proof {
                        assert forall|i: int| 0 <= i <= middle implies bytes_le(
                            #[trigger] file_key(sorted@[i]),
                            key@,
                        ) by {
                            assert(bytes_le(file_key(sorted@[middle as int]), key@));
                            if i < middle {
                                assert(bytes_le(file_key(sorted@[i]), file_key(sorted@[middle as int])));
                                if file_key(sorted@[i]) != file_key(sorted@[middle as int]) && file_key(sorted@[middle as int]) != key@ {
                                    lemma_bytes_lt_transitive(file_key(sorted@[i]), file_key(sorted@[middle as int]), key@);
                                }
                            }
                        }
                    }
                    low = middle + 1;
                },
            }
        }
        let ghost old_sorted = sorted@;
        keys.insert(low, key);
        sorted.insert(low, file);
        proof {
            assert(sorted@ == old_sorted.insert(low as int, file));
            assert forall|i: int| 0 <= i < keys@.len() implies #[trigger] keys@[i]@ == file_key(sorted@[i]) by {
                if i < low {
                } else if i == low {
                } else {
                    assert(sorted@[i] == old_sorted[i - 1]);
                }
            }
            assert forall|a: int, b: int|
                0 <= a < b < sorted@.len() implies bytes_le(
                    #[trigger] file_key(sorted@[a]),
                    #[trigger] file_key(sorted@[b]),
                ) by {
                let ka = file_key(sorted@[a]);
                let kb = file_key(sorted@[b]);
                if a < low && b > low {
                    assert(sorted@[b] == old_sorted[b - 1]);
                    if ka != key@ {
                        lemma_bytes_lt_transitive(ka, key@, kb);
                    }
                } else if a > low {
                    assert(sorted@[a] == old_sorted[a - 1]);
                    assert(sorted@[b] == old_sorted[b - 1]);
                } else if b < low {
                } else if a == low {
                    assert(sorted@[b] == old_sorted[b - 1]);
                } else {
                }
            }
            assert(sorted@.to_multiset() == old_sorted.to_multiset().insert(file));
            assert(before_rest.to_multiset() == rest@.to_multiset().insert(file));
        }
    }
    proof {
        assert(rest@ =~= Seq::<PreparedFile>::empty());
    }
    sorted
}

/// Rejects two entries with the same path in a path-sorted list.
fn reject_duplicate_paths(files: &Vec<PreparedFile>) -> (result: Result<(), CorpusError>)
    requires
        forall|a: int, b: int|
            0 <= a < b < files@.len() ==> bytes_le(
                #[trigger] file_key(files@[a]),
                #[trigger] file_key(files@[b]),
            ),
    ensures
        result is Ok <==> files_sorted(files@),
        result is Ok <==> !has_duplicate_path(files@),
        result matches Err(e) ==> e matches CorpusError::DuplicatePath(p) && exists|a: int, b: int|
            0 <= a < files@.len() && 0 <= b < files@.len() && a != b && files@[a].path@ == p@
                && file_key(files@[a]) == file_key(files@[b]),
{
    let mut i: usize = 1;
    if files.len() == 0 {
        return Ok(());
    }
    while i < files.len()
        invariant
            1 <= i <= files@.len(),
            forall|a: int, b: int|
                0 <= a < b < files@.len() ==> bytes_le(
                    #[trigger] file_key(files@[a]),
                    #[trigger] file_key(files@[b]),
                ),
            forall|a: int| 0 < a < i ==> bytes_lt(file_key(files@[a - 1]), #[trigger] file_key(files@[a])),
        decreases files.len() - i,
    {
        let left = path_key_bytes(files[i - 1].path.as_str());
        let right = path_key_bytes(files[i].path.as_str());
        if compare_bytes(left.as_slice(), right.as_slice()) == Comparison::Equal {
            let path = files[i - 1].path.clone();
            proof {
                assert(file_key(files@[i - 1]) == file_key(files@[i as int]));
            }
            return Err(CorpusError::DuplicatePath(path));
        }
        i = i + 1;
    }
    proof {
        assert forall|a: int, b: int|
            0 <= a < b < files@.len() implies bytes_lt(
                #[trigger] file_key(files@[a]),
                #[trigger] file_key(files@[b]),
            ) by {
            assert(bytes_le(file_key(files@[a]), file_key(files@[b - 1])));
            assert(bytes_lt(file_key(files@[b - 1]), file_key(files@[b])));
            if file_key(files@[a]) != file_key(files@[b - 1]) {
                lemma_bytes_lt_transitive(file_key(files@[a]), file_key(files@[b - 1]), file_key(files@[b]));
            }
        }
        assert(!has_duplicate_path(files@)) by {
            if has_duplicate_path(files@) {
                let (a, b) = choose|a: int, b: int|
                    0 <= a < files@.len() && 0 <= b < files@.len() && a != b && #[trigger] file_key(files@[a])
                        == #[trigger] file_key(files@[b]);
                if a < b {
                    lemma_bytes_lt_irreflexive(file_key(files@[a]));
                } else {
                    lemma_bytes_lt_irreflexive(file_key(files@[b]));
                }
            }
        }
    }
    Ok(())
}

/// Checks that a file's segments partition its normalized lines.
fn validate_segments(file: &PreparedFile) -> (result: Result<(), CorpusError>)
    ensures
        result is Ok <==> segments_partition(*file),
        result matches Err(e) ==> (e matches CorpusError::InvalidSegments { path, line_count } && path@
            == file.path@ && line_count == file.lines@.len()) || (e == CorpusError::TooLarge
            && file.lines@.len() > u32::MAX),
{
    if file.lines.len() > u32::MAX as usize {
        return Err(CorpusError::TooLarge);
    }
    let line_count = file.lines.len() as u32;
    if line_count == 0 {
        if file.segments.len() == 0 {
            return Ok(());
        }
        return Err(CorpusError::InvalidSegments { path: file.path.clone(), line_count: file.lines.len() });
    }
    if file.segments.len() == 0 {
        return Err(CorpusError::InvalidSegments { path: file.path.clone(), line_count: file.lines.len() });
    }
    let mut expected_start: u32 = 0;
    let mut k: usize = 0;
    while k < file.segments.len()
        invariant
            line_count == file.lines@.len(),
            line_count > 0,
            file.segments@.len() > 0,
            k <= file.segments@.len(),
            k == 0 ==> expected_start == 0,
            k > 0 ==> expected_start == file.segments@[k - 1].end,
            expected_start <= line_count,
            forall|j: int| 0 <= j < k ==> #[trigger] file.segments@[j].start < file.segments@[j].end,
            forall|j: int| 0 <= j < k ==> #[trigger] file.segments@[j].end <= line_count,
            forall|j: int| 0 < j < k ==> #[trigger] file.segments@[j].start == file.segments@[j - 1].end,
            k > 0 ==> file.segments@[0].start == 0,
        decreases file.segments.len() - k,
    {
        let segment = file.segments[k];
        if segment.start != expected_start || segment.start >= segment.end || segment.end > line_count {
            proof {
                if segments_partition(*file) {
                    lemma_partition_ends_bounded(*file, k as int);
                }
            }
            return Err(CorpusError::InvalidSegments { path: file.path.clone(), line_count: file.lines.len() });
        }
        expected_start = segment.end;
        k = k + 1;
    }
    if expected_start != line_count {
        return Err(CorpusError::InvalidSegments { path: file.path.clone(), line_count: file.lines.len() });
    }
    Ok(())
}

/// The text of normalized line `index`, if its range is valid.
fn normalized_line_text<'a>(file: &'a PreparedFile, index: usize) -> (result: Result<
    &'a str,
    CorpusError,
>)
    requires
        index < file.lines@.len(),
    ensures
        result is Ok ==> line_range_valid(*file, index as int),
        line_range_valid(*file, index as int) ==> result is Ok,
        result matches Ok(text) ==> text@ == line_text(*file, index as int),
        result matches Err(e) ==> e matches CorpusError::InvalidLineRange { path, start, end } && path@
            == file.path@ && start == file.lines@[index as int].text_range.start && end
            == file.lines@[index as int].text_range.end,
{
    let line = &file.lines[index];
    let start = line.text_range.start;
    let end = line.text_range.end;
    let text = file.normalized.as_str();
    let ghost bytes = text.spec_bytes();
    proof {
        assert(bytes == str_bytes(file.normalized@));
    }
    let raw = text.as_bytes();
    let c1 = start <= end && (end as usize) <= raw.len();
    let c2 = c1 && text.is_char_boundary(start as usize);
    let c3 = c2 && text.is_char_boundary(end as usize);
    proof {
        assert(c1 == (start <= end && end <= bytes.len()));
        assert(c2 == (c1 && is_char_boundary(bytes, start as int)));
    }
    if c3 {
        let (head, _) = text.split_at(end as usize);
        proof {
            assert(head.spec_bytes() =~= bytes.subrange(0, end as int));
            encode_utf8_valid_utf8(text@);
            valid_utf8_split(bytes, end as int);
            let h = head.spec_bytes();
            if start == end {
                is_char_boundary_start_end_of_seq(h);
            } else if start > 0 {
                is_char_boundary_iff_not_is_continuation_byte(bytes, start as int);
                is_char_boundary_iff_not_is_continuation_byte(h, start as int);
            }
        }
        let (_, middle) = head.split_at(start as usize);
        proof {
            assert(middle.spec_bytes() =~= bytes.subrange(start as int, end as int));
        }
        Ok(middle)
    } else {
        Err(CorpusError::InvalidLineRange { path: file.path.clone(), start, end })
    }
}


proof fn lemma_total_lines_permutation(s: Seq<PreparedFile>, t: Seq<PreparedFile>)
    requires
        s.to_multiset() == t.to_multiset(),
    ensures
        total_lines(s) == total_lines(t),
        total_segments(s) == total_segments(t),
    decreases s.len(),
{
    s.to_multiset_ensures();
    t.to_multiset_ensures();
    if s.len() > 0 {
        let x = s.last();
        assert(s.contains(x)) by {
            assert(s[s.len() - 1] == x);
        }
        assert(t.to_multiset().count(x) > 0);
        assert(t.contains(x));
        let i = choose|i: int| 0 <= i < t.len() && t[i] == x;
        let t2 = t.remove(i);
        assert(s.drop_last() =~= s.remove(s.len() - 1));
        assert(s.drop_last().to_multiset() == t2.to_multiset());
        lemma_total_lines_permutation(s.drop_last(), t2);
        lemma_total_remove(t, i);
    } else {
        assert(t.len() == 0);
    }
}

proof fn lemma_total_remove(t: Seq<PreparedFile>, i: int)
    requires
        0 <= i < t.len(),
    ensures
        total_lines(t) == total_lines(t.remove(i)) + t[i].lines@.len(),
        total_segments(t) == total_segments(t.remove(i)) + t[i].segments@.len(),
    decreases t.len(),
{
    if i == t.len() - 1 {
        assert(t.remove(i) =~= t.drop_last());
    } else {
        lemma_total_remove(t.drop_last(), i);
        assert(t.remove(i).drop_last() =~= t.drop_last().remove(i));
        assert(t.remove(i).last() == t.last());
    }
}

proof fn lemma_total_lines_prefix_le(files: Seq<PreparedFile>, k: int)
    requires
        0 <= k <= files.len(),
    ensures
        total_lines(files.take(k)) <= total_lines(files),
        total_segments(files.take(k)) <= total_segments(files),
    decreases files.len() - k,
{
    if k < files.len() {
        lemma_total_lines_prefix_le(files, k + 1);
        assert(files.take(k + 1) =~= files.take(k).push(files[k]));
        lemma_total_lines_push(files.take(k), files[k]);
    } else {
        assert(files.take(k) =~= files);
    }
}

proof fn lemma_multiset_contains(s: Seq<PreparedFile>, t: Seq<PreparedFile>, x: PreparedFile)
    requires
        s.to_multiset() == t.to_multiset(),
        s.contains(x),
    ensures
        t.contains(x),
{
    s.to_multiset_ensures();
    t.to_multiset_ensures();
    assert(s.to_multiset().count(x) > 0);
    assert(t.to_multiset().count(x) > 0);
}

proof fn lemma_total_lines_member(s: Seq<PreparedFile>, i: int)
    requires
        0 <= i < s.len(),
    ensures
        total_lines(s) >= s[i].lines@.len(),
        total_segments(s) >= s[i].segments@.len(),
{
    lemma_total_remove(s, i);
}

proof fn lemma_sorted_no_duplicate(files: Seq<PreparedFile>)
    requires
        files_sorted(files),
    ensures
        !has_duplicate_path(files),
{
    if has_duplicate_path(files) {
        let (a, b) = choose|a: int, b: int|
            0 <= a < files.len() && 0 <= b < files.len() && a != b && #[trigger] file_key(files[a])
                == #[trigger] file_key(files[b]);
        if a < b {
            lemma_bytes_lt_irreflexive(file_key(files[a]));
        } else {
            lemma_bytes_lt_irreflexive(file_key(files[b]));
        }
    }
}

proof fn lemma_duplicate_permutation(s: Seq<PreparedFile>, t: Seq<PreparedFile>)
    requires
        s.to_multiset() == t.to_multiset(),
        has_duplicate_path(s),
    ensures
        has_duplicate_path(t),
{
    s.to_multiset_ensures();
    t.to_multiset_ensures();
    let (a, b) = choose|a: int, b: int|
        0 <= a < s.len() && 0 <= b < s.len() && a != b && #[trigger] file_key(s[a])
            == #[trigger] file_key(s[b]);
    assert(s.contains(s[a]));
    lemma_multiset_contains(s, t, s[a]);
    let i = choose|i: int| 0 <= i < t.len() && t[i] == s[a];
    if s[a] != s[b] {
        assert(s.contains(s[b]));
        lemma_multiset_contains(s, t, s[b]);
        let j = choose|j: int| 0 <= j < t.len() && t[j] == s[b];
        assert(file_key(t[i]) == file_key(t[j]));
    } else {
        // the value occurs twice in s, so twice in t
        let sr = s.remove(a);
        sr.to_multiset_ensures();
        let bb = if b < a { b } else { b - 1 };
        assert(sr[bb] == s[b]);
        assert(sr.contains(s[a]));
        let tr = t.remove(i);
        tr.to_multiset_ensures();
        assert(tr.to_multiset() == sr.to_multiset());
        lemma_multiset_contains(sr, tr, s[a]);
        let j = choose|j: int| 0 <= j < tr.len() && tr[j] == s[a];
        let jj = if j < i { j } else { j + 1 };
        assert(t[jj] == s[a]);
        assert(file_key(t[i]) == file_key(t[jj]));
    }
}

/// Sentinels fit the token type after the line IDs.
fn validate_token_space(line_id_count: u32, segment_count: u32) -> (result: Result<(), CorpusError>)
    ensures
        result is Ok <==> (segment_count == 0 || line_id_count + segment_count - 1 <= u32::MAX),
        result matches Err(e) ==> e == CorpusError::TooLarge,
{
    if segment_count == 0 {
        return Ok(());
    }
    let last_sentinel = line_id_count as u64 + segment_count as u64 - 1;
    if last_sentinel > u32::MAX as u64 {
        return Err(CorpusError::TooLarge);
    }
    Ok(())
}

/// Every line range of every file is valid.
pub open spec fn all_line_ranges_valid(files: Seq<PreparedFile>) -> bool {
    forall|f: PreparedFile, i: int|
        files.contains(f) && 0 <= i < f.lines@.len() ==> #[trigger] line_range_valid(f, i)
}

/// Every file's segments partition its lines.
pub open spec fn all_segments_valid(files: Seq<PreparedFile>) -> bool {
    forall|f: PreparedFile| files.contains(f) ==> #[trigger] segments_partition(f)
}

/// Builds the token corpus of `files`.
///
/// Files are ordered by path. Normalized lines with equal text receive equal
/// IDs, assigned in order of first appearance, and every segment ends with
/// a sentinel token that occurs nowhere else.
#[verifier::spinoff_prover]
pub fn build_corpus(input_files: Vec<PreparedFile>) -> (result: Result<Corpus, CorpusError>)
    ensures
        result is Ok <==> {
            &&& !has_duplicate_path(input_files@)
            &&& all_segments_valid(input_files@)
            &&& total_lines(input_files@) + total_segments(input_files@) <= u32::MAX
            &&& all_line_ranges_valid(input_files@)
            &&& input_files@.len() <= u32::MAX + 1
        },
        result matches Ok(corpus) ==> {
            &&& corpus.files@.to_multiset() == input_files@.to_multiset()
            &&& corpus_layout(corpus)
            &&& corpus_valid(corpus)
            &&& corpus.tokens@.len() == total_lines(input_files@) + total_segments(input_files@)
        },
        has_duplicate_path(input_files@) ==> (result matches Err(e) && e is DuplicatePath),
        !has_duplicate_path(input_files@) && !all_segments_valid(input_files@) ==> (result matches Err(e) && (
        e is InvalidSegments || e is TooLarge)),
        result matches Err(CorpusError::DuplicatePath(p)) ==> exists|a: int, b: int|
            0 <= a < input_files@.len() && 0 <= b < input_files@.len() && a != b && input_files@[a].path@ == p@
                && file_key(input_files@[a]) == file_key(input_files@[b]),
        result matches Err(CorpusError::InvalidSegments { path, line_count }) ==> exists|f: PreparedFile|
            input_files@.contains(f) && !segments_partition(f) && f.path@ == path@ && f.lines@.len()
                == line_count,
        result matches Err(CorpusError::InvalidLineRange { path, start, end }) ==> exists|
            f: PreparedFile,
            i: int,
        |
            input_files@.contains(f) && 0 <= i < f.lines@.len() && !line_range_valid(f, i) && f.path@
                == path@ && f.lines@[i].text_range.start == start && f.lines@[i].text_range.end == end,
        result matches Err(CorpusError::TooLarge) ==> total_lines(input_files@) + total_segments(input_files@)
            > u32::MAX || input_files@.len() > u32::MAX + 1,
{
    let ghost input = input_files@;
    let files = sort_files_by_path(input_files);
    proof {
        files@.to_multiset_ensures();
        input.to_multiset_ensures();
        lemma_total_lines_permutation(files@, input);
        if has_duplicate_path(input) {
            lemma_duplicate_permutation(input, files@);
        }
        if has_duplicate_path(files@) {
            lemma_duplicate_permutation(files@, input);
        }
        assert forall|f: PreparedFile| files@.contains(f) <==> input.contains(f) by {
            assert(files@.contains(f) <==> files@.to_multiset().count(f) > 0);
            assert(input.contains(f) <==> input.to_multiset().count(f) > 0);
        }
    }
    match reject_duplicate_paths(&files) {
        Ok(()) => {},
        Err(e) => {
            proof {
                let p = e->DuplicatePath_0;
                let (a, b) = choose|a: int, b: int|
                    0 <= a < files@.len() && 0 <= b < files@.len() && a != b && files@[a].path@ == p@
                        && file_key(files@[a]) == file_key(files@[b]);
                // the same two entries exist in the input
                assert(files@.contains(files@[a]));
                assert(input.contains(files@[a]));
                let i = choose|i: int| 0 <= i < input.len() && input[i] == files@[a];
                lemma_duplicate_permutation(files@, input);
                if files@[a] != files@[b] {
                    assert(files@.contains(files@[b]));
                    assert(input.contains(files@[b]));
                    let j = choose|j: int| 0 <= j < input.len() && input[j] == files@[b];
                    assert(input[i].path@ == p@ && file_key(input[i]) == file_key(input[j]) && i != j);
                } else {
                    let sr = files@.remove(a);
                    sr.to_multiset_ensures();
                    let bb = if b < a { b } else { b - 1 };
                    assert(sr[bb] == files@[b]);
                    assert(sr.contains(files@[a]));
                    let tr = input.remove(i);
                    tr.to_multiset_ensures();
                    assert(tr.to_multiset() == sr.to_multiset());
                    lemma_multiset_contains(sr, tr, files@[a]);
                    let j = choose|j: int| 0 <= j < tr.len() && tr[j] == files@[a];
                    let jj = if j < i { j } else { j + 1 };
                    assert(input[jj] == files@[a]);
                    assert(input[i].path@ == p@ && file_key(input[i]) == file_key(input[jj]) && i != jj);
                }
            }
            return Err(e);
        },
    }
    proof {
        if has_duplicate_path(input) {
            lemma_duplicate_permutation(input, files@);
        }
    }
    let mut fi: usize = 0;
    while fi < files.len()
        invariant
            !has_duplicate_path(input),
            files@.len() == input.len(),
            input == input_files@,
            total_lines(files@) == total_lines(input),
            total_segments(files@) == total_segments(input),
            fi <= files@.len(),
            forall|f: PreparedFile| files@.contains(f) <==> input.contains(f),
            forall|j: int| 0 <= j < fi ==> #[trigger] segments_partition(files@[j]),
        decreases files.len() - fi,
    {
        match validate_segments(&files[fi]) {
            Ok(()) => {},
            Err(e) => {
                proof {
                    let f = files@[fi as int];
                    assert(files@.contains(f));
                    assert(input.contains(f));
                    assert(!segments_partition(f));
                    assert(!all_segments_valid(input));
                    let j = choose|j: int| 0 <= j < input.len() && input[j] == f;
                    lemma_total_lines_member(input, j);
                    if e is InvalidSegments {
                        assert(input.contains(f) && !segments_partition(f) && f.path@ == e->InvalidSegments_path@ && f.lines@.len() == e->InvalidSegments_line_count);
                    }
                }
                return Err(e);
            },
        }
        fi = fi + 1;
    }
    proof {
        assert(all_segments_valid(input)) by {
            assert forall|f: PreparedFile| input.contains(f) implies #[trigger] segments_partition(f) by {
                assert(files@.contains(f));
                let j = choose|j: int| 0 <= j < files@.len() && files@[j] == f;
            }
        }
    }
    // totals
    let mut total_segment_count: usize = 0;
    let mut total_line_count: usize = 0;
    let mut ti: usize = 0;
    while ti < files.len()
        invariant
            !has_duplicate_path(input),
            all_segments_valid(input),
            files@.len() == input.len(),
            input == input_files@,
            total_lines(files@) == total_lines(input),
            total_segments(files@) == total_segments(input),
            ti <= files@.len(),
            total_segment_count == total_segments(files@.take(ti as int)),
            total_line_count == total_lines(files@.take(ti as int)),
            total_segment_count + total_line_count <= u32::MAX,
        decreases files.len() - ti,
    {
        proof {
            assert(files@.take(ti + 1) =~= files@.take(ti as int).push(files@[ti as int]));
            lemma_total_lines_push(files@.take(ti as int), files@[ti as int]);
        }
        let segs = files[ti].segments.len();
        let lines = files[ti].lines.len();
        if segs > u32::MAX as usize || lines > u32::MAX as usize
            || total_segment_count as u64 + total_line_count as u64 + segs as u64 + lines as u64 > u32::MAX as u64 {
            proof {
                lemma_total_lines_prefix_le(files@, ti as int + 1);
                lemma_total_lines_member(files@, ti as int);
            }
            return Err(CorpusError::TooLarge);
        }
        total_segment_count = total_segment_count + segs;
        total_line_count = total_line_count + lines;
        ti = ti + 1;
    }
    proof {
        assert(files@.take(files@.len() as int) =~= files@);
    }
    let ghost texts = all_texts(files@);
    // first pass: intern normalized lines
    let mut interned: StringHashMap<u32> = StringHashMap::new();
    let mut file_line_ids: Vec<Vec<u32>> = Vec::new();
    let mut fi: usize = 0;
    proof {
        lemma_all_texts_len(files@);
    }
    while fi < files.len()
        invariant
            !has_duplicate_path(input),
            all_segments_valid(input),
            files@.len() == input.len(),
            input == input_files@,
            total_lines(files@) == total_lines(input),
            total_segments(files@) == total_segments(input),
            fi <= files@.len(),
            files_sorted(files@),
            forall|f: PreparedFile| files@.contains(f) <==> input.contains(f),
            total_line_count == total_lines(files@),
            total_line_count + total_segment_count <= u32::MAX,
            texts == all_texts(files@),
            texts.len() == total_lines(files@),
            file_line_ids@.len() == fi,
            interned@ == intern_map(all_texts(files@.take(fi as int))),
            forall|j: int, l: int|
                0 <= j < fi && 0 <= l < files@[j].lines@.len() ==> #[trigger] line_range_valid(files@[j], l),
            forall|j: int| 0 <= j < fi ==> (#[trigger] file_line_ids@[j])@.len() == files@[j].lines@.len(),
            forall|j: int, l: int|
                0 <= j < fi && 0 <= l < files@[j].lines@.len() ==> #[trigger] file_line_ids@[j]@[l]
                    == intern_map(all_texts(files@.take(fi as int)))[line_text(files@[j], l)]
                    && intern_map(all_texts(files@.take(fi as int))).contains_key(line_text(files@[j], l)),
        decreases files.len() - fi,
    {
        let file = &files[fi];
        let ghost prefix = all_texts(files@.take(fi as int));
        let ghost ftexts = Seq::new(file.lines@.len(), |i: int| line_text(*file, i));
        proof {
            assert(files@.take(fi + 1) =~= files@.take(fi as int).push(files@[fi as int]));
            lemma_total_lines_push(files@.take(fi as int), files@[fi as int]);
            lemma_all_texts_len(files@.take(fi + 1));
            lemma_total_lines_prefix_le(files@, fi + 1);
        }
        let mut line_ids: Vec<u32> = Vec::new();
        let mut li: usize = 0;
        while li < file.lines.len()
            invariant
                !has_duplicate_path(input),
                all_segments_valid(input),
                files@.len() == input.len(),
            input == input_files@,
                total_lines(files@) == total_lines(input),
                total_segments(files@) == total_segments(input),
                fi < files@.len(),
                *file == files@[fi as int],
                li <= file.lines@.len(),
                ftexts == Seq::new(file.lines@.len(), |i: int| line_text(*file, i)),
                prefix == all_texts(files@.take(fi as int)),
                prefix.len() + ftexts.len() <= u32::MAX,
                forall|f: PreparedFile| files@.contains(f) <==> input.contains(f),
                line_ids@.len() == li,
                file_line_ids@.len() == fi,
                interned@ == intern_map(prefix + ftexts.take(li as int)),
                forall|l: int| 0 <= l < li ==> #[trigger] line_range_valid(*file, l),
                forall|l: int|
                    0 <= l < li ==> #[trigger] line_ids@[l] == intern_map(prefix + ftexts.take(li as int))[line_text(*file, l)]
                        && intern_map(prefix + ftexts.take(li as int)).contains_key(line_text(*file, l)),
                forall|j: int| 0 <= j < fi ==> (#[trigger] file_line_ids@[j])@.len() == files@[j].lines@.len(),
                forall|j: int, l: int|
                    0 <= j < fi && 0 <= l < files@[j].lines@.len() ==> #[trigger] file_line_ids@[j]@[l]
                        == intern_map(prefix + ftexts.take(li as int))[line_text(files@[j], l)]
                        && intern_map(prefix + ftexts.take(li as int)).contains_key(line_text(files@[j], l)),
            decreases file.lines.len() - li,
        {
            let text = match normalized_line_text(file, li) {
                Ok(text) => text,
                Err(e) => {
                    proof {
                        let f = files@[fi as int];
                        assert(files@.contains(f));
                        assert(input.contains(f));
                        assert(!line_range_valid(f, li as int));
                        assert(!all_line_ranges_valid(input));
                        assert(input.contains(f) && 0 <= li < f.lines@.len() && !line_range_valid(f, li as int) && f.path@ == e->InvalidLineRange_path@ && f.lines@[li as int].text_range.start == e->InvalidLineRange_start && f.lines@[li as int].text_range.end == e->InvalidLineRange_end);
                    }
                    return Err(e);
                },
            };
            let ghost before = prefix + ftexts.take(li as int);
            let ghost after = prefix + ftexts.take(li + 1);
            proof {
                assert(after =~= before.push(text@));
                assert(after.drop_last() =~= before);
                lemma_intern_map_facts(before);
            }
            let id = match interned.get(text) {
                Some(existing) => *existing,
                None => {
                    let id = interned.len() as u32;
                    interned.insert(text.to_owned(), id);
                    id
                },
            };
            proof {
                assert(interned@ == intern_map(after));
                assert forall|t: Seq<char>| intern_map(before).contains_key(t) implies intern_map(
                    after,
                ).contains_key(t) && intern_map(after)[t] == intern_map(before)[t] by {
                    lemma_intern_map_stable(before, seq![text@], t);
                    assert(before + seq![text@] =~= after);
                }
            }
            line_ids.push(id);
            li = li + 1;
        }
        proof {
            assert(ftexts.take(li as int) =~= ftexts);
            lemma_total_lines_push(files@.take(fi as int), files@[fi as int]);
            assert(prefix + ftexts =~= all_texts(files@.take(fi + 1)));
        }
        let ghost old_ids = file_line_ids@;
        file_line_ids.push(line_ids);
        proof {
            assert forall|j: int, l: int|
                0 <= j < fi + 1 && 0 <= l < files@[j].lines@.len() implies #[trigger] file_line_ids@[j]@[l]
                    == intern_map(all_texts(files@.take(fi + 1)))[line_text(files@[j], l)]
                    && intern_map(all_texts(files@.take(fi + 1))).contains_key(line_text(files@[j], l)) by {
                if j < fi {
                    assert(file_line_ids@[j] == old_ids[j]);
                }
            }
        }
        fi = fi + 1;
    }
    let ghost final_map = intern_map(texts);
    proof {
        assert(files@.take(fi as int) =~= files@);
        lemma_intern_map_facts(texts);
    }
    let line_id_count = interned.len() as u32;
    let segment_count = total_segment_count as u32;
    match validate_token_space(line_id_count, segment_count) {
        Ok(()) => {},
        Err(e) => { return Err(e); },
    }
    // second pass: lay out segments with sentinels
    let mut tokens: Vec<CorpusToken> = Vec::new();
    let mut positions: Vec<Option<CorpusLocation>> = Vec::new();
    let mut sentinel_ordinal: u32 = 0;
    let mut fi: usize = 0;
    while fi < files.len()
        invariant
            !has_duplicate_path(input),
            all_segments_valid(input),
            files@.len() == input.len(),
            input == input_files@,
            total_lines(files@) == total_lines(input),
            total_segments(files@) == total_segments(input),
            fi <= files@.len(),
            file_line_ids@.len() == files@.len(),
            forall|j: int| 0 <= j < files@.len() ==> (#[trigger] file_line_ids@[j])@.len() == files@[j].lines@.len(),
            forall|j: int, l: int|
                0 <= j < files@.len() && 0 <= l < files@[j].lines@.len() ==> #[trigger] file_line_ids@[j]@[l]
                    == line_token(files@, j, l),
            forall|j: int| 0 <= j < files@.len() ==> #[trigger] segments_partition(files@[j]),
            line_id_count as nat == final_map.len(),
            final_map == intern_map(all_texts(files@)),
            line_id_count + total_segment_count <= u32::MAX,
            files_sorted(files@),
            forall|f: PreparedFile| files@.contains(f) <==> input.contains(f),
            forall|j: int, l: int|
                0 <= j < files@.len() && 0 <= l < files@[j].lines@.len() ==> #[trigger] line_range_valid(files@[j], l),
            fi <= u32::MAX + 1,
            total_line_count == total_lines(files@),
            total_line_count + total_segment_count <= u32::MAX,
            total_segment_count == total_segments(files@),
            positions@ == all_positions(files@.take(fi as int)),
            tokens@.len() == positions@.len(),
            sentinel_ordinal as nat == gap_count(positions@),
            sentinel_ordinal as nat == total_segments(files@.take(fi as int)),
            forall|p: int|
                0 <= p < positions@.len() ==> match #[trigger] positions@[p] {
                    Some(loc) => tokens@[p] == line_token(files@, loc.file as int, loc.normalized_line as int),
                    None => tokens@[p] == line_id_count + gap_count(positions@.take(p)),
                },
        decreases files.len() - fi,
    {
        let file = &files[fi];
        let line_ids = &file_line_ids[fi];
        let ghost outer = all_positions(files@.take(fi as int));
        if fi > u32::MAX as usize {
            return Err(CorpusError::TooLarge);
        }
        let file_id = fi as u32;
        let ghost segs = file.segments@;
        proof {
            assert(files@.take(fi + 1) =~= files@.take(fi as int).push(files@[fi as int]));
            lemma_total_lines_push(files@.take(fi as int), files@[fi as int]);
            lemma_total_lines_prefix_le(files@, fi + 1);
            assert(segs.take(0) =~= Seq::<NormalizedSegment>::empty());
            assert(outer + segment_positions(segs.take(0), fi as int) =~= outer);
        }
        let mut k: usize = 0;
        while k < file.segments.len()
            invariant
                !has_duplicate_path(input),
                all_segments_valid(input),
                files@.len() == input.len(),
            input == input_files@,
                total_lines(files@) == total_lines(input),
                total_segments(files@) == total_segments(input),
                fi < files@.len(),
                file_id == fi,
                *file == files@[fi as int],
                segs == file.segments@,
                *line_ids == file_line_ids@[fi as int],
                line_ids@.len() == file.lines@.len(),
                segments_partition(*file),
                k <= segs.len(),
                forall|l: int| 0 <= l < file.lines@.len() ==> #[trigger] line_ids@[l] == line_token(files@, fi as int, l),
                line_id_count as nat == final_map.len(),
                line_id_count + total_segment_count <= u32::MAX,
                total_segment_count == total_segments(files@),
                total_segments(files@.take(fi as int)) + segs.len() <= total_segments(files@),
                outer == all_positions(files@.take(fi as int)),
                positions@ == outer + segment_positions(segs.take(k as int), fi as int),
                tokens@.len() == positions@.len(),
                sentinel_ordinal as nat == gap_count(positions@),
                sentinel_ordinal as nat == total_segments(files@.take(fi as int)) + k,
                forall|p: int|
                    0 <= p < positions@.len() ==> match #[trigger] positions@[p] {
                        Some(loc) => tokens@[p] == line_token(files@, loc.file as int, loc.normalized_line as int),
                        None => tokens@[p] == line_id_count + gap_count(positions@.take(p)),
                    },
            decreases segs.len() - k,
        {
            let segment = file.segments[k];
            proof {
                lemma_partition_ends_bounded(*file, k as int);
            }
            let ghost seg_start = positions@;
            let mut line = segment.start;
            while line < segment.end
                invariant
                    files@.len() == input.len(),
            input == input_files@,
                    total_lines(files@) == total_lines(input),
                    total_segments(files@) == total_segments(input),
                    segment == segs[k as int],
                    segment.start <= line <= segment.end,
                    segment.end <= file.lines@.len(),
                    line_ids@.len() == file.lines@.len(),
                    file_id == fi,
                    fi < files@.len(),
                    *file == files@[fi as int],
                    forall|l: int| 0 <= l < file.lines@.len() ==> #[trigger] line_ids@[l] == line_token(files@, fi as int, l),
                    positions@ == seg_start + Seq::new(
                        (line - segment.start) as nat,
                        |t: int| Some(CorpusLocation { file: fi as u32, normalized_line: (segment.start + t) as u32 }),
                    ),
                    tokens@.len() == positions@.len(),
                    sentinel_ordinal as nat == gap_count(positions@),
                    forall|p: int|
                        0 <= p < positions@.len() ==> match #[trigger] positions@[p] {
                            Some(loc) => tokens@[p] == line_token(files@, loc.file as int, loc.normalized_line as int),
                            None => tokens@[p] == line_id_count + gap_count(positions@.take(p)),
                        },
                decreases segment.end - line,
            {
                let ghost prev = positions@;
                let location = CorpusLocation { file: file_id, normalized_line: line };
                tokens.push(line_ids[line as usize]);
                positions.push(Some(location));
                proof {
                    lemma_gap_count_push(prev, Some(location));
                    assert forall|p: int| 0 <= p < positions@.len() implies match #[trigger] positions@[p] {
                        Some(loc) => tokens@[p] == line_token(files@, loc.file as int, loc.normalized_line as int),
                        None => tokens@[p] == line_id_count + gap_count(positions@.take(p)),
                    } by {
                        if p < prev.len() {
                            assert(positions@[p] == prev[p]);
                            assert(positions@.take(p) =~= prev.take(p));
                        }
                    }
                    assert(positions@ =~= seg_start + Seq::new(
                        (line + 1 - segment.start) as nat,
                        |t: int| Some(CorpusLocation { file: fi as u32, normalized_line: (segment.start + t) as u32 }),
                    ));
                }
                line = line + 1;
            }
            let ghost prev = positions@;
            let sentinel = line_id_count + sentinel_ordinal;
            tokens.push(sentinel);
            positions.push(None);
            proof {
                lemma_gap_count_push(prev, None);
                assert(positions@.take(prev.len() as int) =~= prev);
                assert forall|p: int| 0 <= p < positions@.len() implies match #[trigger] positions@[p] {
                    Some(loc) => tokens@[p] == line_token(files@, loc.file as int, loc.normalized_line as int),
                    None => tokens@[p] == line_id_count + gap_count(positions@.take(p)),
                } by {
                    if p < prev.len() {
                        assert(positions@[p] == prev[p]);
                        assert(positions@.take(p) =~= prev.take(p));
                    }
                }
                assert(segs.take(k + 1) =~= segs.take(k as int).push(segment));
                lemma_segment_positions_push(segs.take(k as int), segment, fi as int);
                assert(positions@ =~= outer + segment_positions(segs.take(k + 1), fi as int));
            }
            sentinel_ordinal = sentinel_ordinal + 1;
            k = k + 1;
        }
        proof {
            assert(segs.take(k as int) =~= segs);
        }
        fi = fi + 1;
    }
    proof {
        assert(files@.take(fi as int) =~= files@);
        if has_duplicate_path(input) {
            lemma_duplicate_permutation(input, files@);
            lemma_sorted_no_duplicate(files@);
        }
        assert forall|f: PreparedFile| input.contains(f) implies #[trigger] segments_partition(f) by {
            assert(files@.contains(f));
            let j = choose|j: int| 0 <= j < files@.len() && files@[j] == f;
        }
        assert forall|f: PreparedFile, i: int| input.contains(f) && 0 <= i < f.lines@.len() implies #[trigger] line_range_valid(f, i) by {
            assert(files@.contains(f));
            let j = choose|j: int| 0 <= j < files@.len() && files@[j] == f;
        }
        assert forall|k: int| 0 <= k < files@.len() implies #[trigger] segments_partition(files@[k]) by {
            assert(files@.contains(files@[k]));
            assert(input.contains(files@[k]));
        }
        reveal(corpus_valid);
        lemma_all_positions_len(files@);
    }
    Ok(Corpus { files, tokens, positions, line_id_count, segment_count })
}
} // verus!
