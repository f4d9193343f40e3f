use unicode_segmentation::UnicodeSegmentation;
use vstd::prelude::*;

use crate::decode::{
    invalid, invalid_total, scalar, units_of, Chars, DecodedUnit, InclusiveRange,
    REPLACEMENT,
};

verus! {

/// The extended grapheme clusters of a text, in order.
pub uninterp spec fn grapheme_clusters(s: Seq<char>) -> Seq<Seq<char>>;

/// The extended grapheme clusters of `s`, each as its scalar values.
///
/// Relies on `unicode_segmentation::UnicodeSegmentation::graphemes` (extended
/// clusters): the clusters are non-empty and, put together, give back the text.
#[verifier::external_body]
pub(crate) fn clusters_of(s: &str) -> (r: Vec<Vec<char>>)
    ensures
        r@.len() == grapheme_clusters(s@).len(),
        forall|i: int| 0 <= i < r@.len() ==> #[trigger] r@[i]@ == grapheme_clusters(s@)[i],
        forall|i: int| 0 <= i < r@.len() ==> #[trigger] r@[i]@.len() > 0,
        cluster_views(r@).flatten() == s@,
{
    s.graphemes(true).map(|g| g.chars().collect()).collect()
}

/// Each cluster seen as a sequence.
pub open spec fn cluster_views(r: Seq<Vec<char>>) -> Seq<Seq<char>> {
    r.map_values(|v: Vec<char>| v@)
}

/// The text of a sequence of scalar values.
///
/// Relies on `String`'s `FromIterator<&char>`, which appends each scalar value in turn.
#[verifier::external_body]
pub(crate) fn string_of(s: &[char]) -> (r: String)
    ensures
        r@ == s@,
{
    String::from_iter(s)
}

/// The number of bytes of the UTF-8 encoding of a text.
pub open spec fn utf8_size(s: Seq<char>) -> nat
    decreases s.len(),
{
    if s.len() == 0 {
        0
    } else {
        utf8_size(s.drop_last()) + crate::decode::utf8_len(s.last())
    }
}

/// Each range follows the one before it, and holds the UTF-8 encoding of
/// its scalar value.
pub open spec fn contiguous(ranges: Seq<InclusiveRange>, text: Seq<char>) -> bool {
    &&& ranges.len() == text.len()
    &&& forall|i: int|
        0 <= i < ranges.len() ==> #[trigger] ranges[i].end + 1 - ranges[i].start
            == crate::decode::utf8_len(text[i])
    &&& forall|i: int| 0 <= i < ranges.len() - 1 ==> #[trigger] ranges[i].end + 1 == ranges[i + 1].start
}

/// Contiguous ranges: the first `k` span the UTF-8 size of the first `k`
/// scalar values, and what is left is contiguous too.
proof fn lemma_contiguous_prefix(ranges: Seq<InclusiveRange>, text: Seq<char>, k: int)
    requires
        contiguous(ranges, text),
        0 < k <= ranges.len(),
    ensures
        ranges[k - 1].end + 1 - ranges[0].start == utf8_size(text.subrange(0, k)),
        contiguous(ranges.subrange(k, ranges.len() as int), text.subrange(k, text.len() as int)),
    decreases k,
{
    assert(ranges[k - 1].end + 1 - ranges[k - 1].start == crate::decode::utf8_len(text[k - 1]));
    assert(text.subrange(0, k).last() == text[k - 1]);
    if k > 1 {
        lemma_contiguous_prefix(ranges, text, k - 1);
        assert(text.subrange(0, k).drop_last() =~= text.subrange(0, k - 1));
        assert(ranges[k - 2].end + 1 == ranges[k - 1].start);
    } else {
        assert(text.subrange(0, 1).drop_last() =~= Seq::<char>::empty());
    }
    let rs = ranges.subrange(k, ranges.len() as int);
    let ts = text.subrange(k, text.len() as int);
    assert forall|i: int| 0 <= i < rs.len() implies #[trigger] rs[i].end + 1 - rs[i].start
        == crate::decode::utf8_len(ts[i]) by {
        assert(rs[i] == ranges[i + k]);
        assert(ts[i] == text[i + k]);
    }
    assert forall|i: int| 0 <= i < rs.len() - 1 implies #[trigger] rs[i].end + 1 == rs[i + 1].start by {
        assert(rs[i] == ranges[i + k]);
        assert(rs[i + 1] == ranges[i + 1 + k]);
    }
}

/// A range that follows contiguous ranges and holds the encoding of `c`
/// keeps them contiguous.
proof fn lemma_contiguous_push(
    ranges: Seq<InclusiveRange>,
    text: Seq<char>,
    r: InclusiveRange,
    c: char,
)
    requires
        contiguous(ranges, text),
        ranges.len() > 0 ==> ranges.last().end + 1 == r.start,
        r.end + 1 - r.start == crate::decode::utf8_len(c),
    ensures
        contiguous(ranges.push(r), text.push(c)),
{
    let rs = ranges.push(r);
    let ts = text.push(c);
    assert forall|i: int| 0 <= i < rs.len() implies #[trigger] rs[i].end + 1 - rs[i].start
        == crate::decode::utf8_len(ts[i]) by {
        if i < ranges.len() {
            assert(rs[i] == ranges[i]);
            assert(ts[i] == text[i]);
        }
    }
    assert forall|i: int| 0 <= i < rs.len() - 1 implies #[trigger] rs[i].end + 1 == rs[i + 1].start by {
        assert(rs[i] == ranges[i]);
        if i + 1 < ranges.len() {
            assert(rs[i + 1] == ranges[i + 1]);
        }
    }
}

/// Scalar values seen as decoded units.
pub open spec fn as_scalars(s: Seq<char>) -> Seq<DecodedUnit> {
    s.map_values(|c: char| scalar(c))
}

/// The units as a decoder hands them on: in lossy mode an invalid sequence
/// becomes the replacement character.
pub open spec fn effective(units: Seq<DecodedUnit>, lossy: bool) -> Seq<DecodedUnit> {
    units.map_values(
        |u: DecodedUnit|
            match u {
                Err(_) => if lossy {
                    scalar(REPLACEMENT)
                } else {
                    u
                },
                _ => u,
            },
    )
}

/// On input without invalid sequences, lossy and strict decoding hand on the
/// same units, which are the decoded scalar values, and no byte counts as
/// invalid.
pub proof fn lemma_valid_input_decodes_alike(bytes: Seq<u8>)
    requires
        forall|i: int| 0 <= i < units_of(bytes).len() ==> #[trigger] units_of(bytes)[i] is Ok,
    ensures
        effective(units_of(bytes), true) == effective(units_of(bytes), false),
        effective(units_of(bytes), true) == units_of(bytes),
        invalid_total(units_of(bytes)) == 0,
{
    let u = units_of(bytes);
    assert(effective(u, true) =~= u);
    assert(effective(u, false) =~= u);
    lemma_no_invalid_total(u);
}

proof fn lemma_no_invalid_total(u: Seq<DecodedUnit>)
    requires
        forall|i: int| 0 <= i < u.len() ==> #[trigger] u[i] is Ok,
    ensures
        invalid_total(u) == 0,
    decreases u.len(),
{
    if u.len() > 0 {
        assert forall|i: int| 0 <= i < u.drop_last().len() implies #[trigger] u.drop_last()[i] is Ok by {
            assert(u.drop_last()[i] == u[i]);
        }
        lemma_no_invalid_total(u.drop_last());
        assert(u[u.len() - 1] is Ok);
    }
}

/// Once a lossy decoder has read all its input, its invalid-byte count is the
/// total length of the invalid sequences in it, and each of those sequences
/// is handed on as exactly one replacement character, in its place.
pub proof fn lemma_lossy_replacement(c: Chars)
    requires
        c.wf(),
        c.lossy(),
        c.pending().len() == 0,
    ensures
        c.invalid_count() == invalid_total(c.all_units()),
        effective(c.all_units(), true).len() == c.all_units().len(),
        forall|i: int|
            0 <= i < c.all_units().len() ==> (#[trigger] c.all_units()[i] is Err ==> effective(
                c.all_units(),
                true,
            )[i] == scalar(REPLACEMENT)),
        forall|i: int|
            0 <= i < c.all_units().len() ==> (#[trigger] c.all_units()[i] is Ok ==> effective(
                c.all_units(),
                true,
            )[i] == c.all_units()[i]),
{
    c.lemma_counts();
    assert(c.consumed_units() + c.pending() =~= c.consumed_units());
}

/// The first unit that a decoder hands on, and the rest.
proof fn lemma_effective_step(p: Seq<DecodedUnit>, lossy: bool)
    requires
        p.len() > 0,
    ensures
        effective(p, lossy) == seq![effective(p, lossy)[0]] + effective(p.drop_first(), lossy),
        effective(p, lossy)[0] == match p[0] {
            Ok(c) => scalar(c),
            Err(b) => if lossy {
                scalar(REPLACEMENT)
            } else {
                invalid(b)
            },
        },
{
    assert(effective(p, lossy) =~= seq![effective(p, lossy)[0]] + effective(p.drop_first(), lossy));
}

/// Scalar values split at `k` are the units of the two parts.
proof fn lemma_as_scalars_split(s: Seq<char>, k: int)
    requires
        0 <= k <= s.len(),
    ensures
        as_scalars(s) == as_scalars(s.subrange(0, k)) + as_scalars(s.subrange(k, s.len() as int)),
{
    assert(as_scalars(s) =~= as_scalars(s.subrange(0, k)) + as_scalars(s.subrange(k, s.len() as int)));
}

/// Of a split into at least two non-empty parts, the first is a proper prefix.
proof fn lemma_first_part_shorter(parts: Seq<Seq<char>>, s: Seq<char>)
    requires
        parts.len() >= 2,
        parts.flatten() == s,
        forall|i: int| 0 <= i < parts.len() ==> #[trigger] parts[i].len() > 0,
    ensures
        0 < parts[0].len() < s.len(),
        s.subrange(0, parts[0].len() as int) == parts[0],
{
    let rest = parts.drop_first();
    assert(parts.flatten() == parts.first() + rest.flatten());
    assert(rest.len() >= 1);
    assert(rest[0].len() > 0);
    assert(rest.flatten() == rest.first() + rest.drop_first().flatten());
    assert(s.subrange(0, parts[0].len() as int) =~= parts[0]);
}

/// Groups decoded scalar values into extended grapheme clusters, each with the
/// inclusive range of bytes it takes in the collected text.
pub struct Clusters {
    pub(crate) chars: Chars,
    buffer: Vec<char>,
    ranges: Vec<InclusiveRange>,
    checked: usize,
    pending_error: Option<Vec<u8>>,
}

/// What a grapheme stream step hands out: a cluster with its byte range, or the
/// bytes of an invalid sequence.
pub type ClusterResult = Result<(String, InclusiveRange), Vec<u8>>;

impl Clusters {
    /// The units still to come: buffered scalar values, a held-back error, then
    /// what the decoder has not read yet.
    pub closed spec fn remaining(&self) -> Seq<DecodedUnit> {
        as_scalars(self.buffer@) + match self.pending_error {
            Some(e) => seq![invalid(e@)],
            None => Seq::empty(),
        } + effective(self.chars.pending(), self.chars.lossy())
    }

    /// The byte range of each buffered scalar value.
    pub closed spec fn ranges_spec(&self) -> Seq<InclusiveRange> {
        self.ranges@
    }

    /// The decoder underneath.
    pub closed spec fn decoder(&self) -> Chars {
        self.chars
    }

    pub closed spec fn wf(&self) -> bool {
        &&& self.chars.wf()
        &&& self.ranges@.len() == self.buffer@.len()
        &&& self.pending_error is Some ==> self.buffer@.len() == 0
        &&& forall|i: int|
            0 <= i < self.ranges@.len() ==> #[trigger] self.ranges@[i].start
                <= self.ranges@[i].end < self.chars.collected().len_spec()
        &&& forall|i: int, j: int|
            #![trigger self.ranges@[i], self.ranges@[j]]
            0 <= i < j < self.ranges@.len() ==> self.ranges@[i].end < self.ranges@[j].start
        &&& contiguous(self.ranges@, self.buffer@)
        &&& self.checked <= self.buffer@.len()
        &&& prefixes_single(self.buffer@, self.checked as int)
        &&& self.ranges@.len() > 0 ==> self.ranges@.last().end + 1
            == self.chars.collected().len_spec()
    }

    /// Where the bytes of the next scalar value handed out start in the
    /// collected text.
    pub closed spec fn next_byte(&self) -> nat {
        if self.ranges@.len() > 0 {
            self.ranges@[0].start as nat
        } else {
            self.chars.collected().len_spec()
        }
    }

    /// Clusters of the text decoded from `bytes`.
    pub fn new(bytes: Vec<u8>, is_lossy: bool, void: bool) -> (r: Clusters)
        requires
            bytes@.len() <= usize::MAX / 8,
        ensures
            r.wf(),
            r.decoder().pending() == units_of(bytes@),
            r.remaining() == effective(units_of(bytes@), is_lossy),
            r.decoder().lossy() == is_lossy,
            r.decoder().valid_count() == 0,
            r.decoder().invalid_count() == 0,
            r.decoder().collected().len_spec() == 0,
            r.decoder().collected().is_void() == void,
            r.next_byte() == 0,
    {
        let r = Clusters {
            chars: Chars::new(bytes, is_lossy, void),
            buffer: Vec::new(),
            ranges: Vec::new(),
            checked: 0,
            pending_error: None,
        };
        assert(as_scalars(r.buffer@) =~= Seq::<DecodedUnit>::empty());
        assert(r.remaining() =~= effective(units_of(bytes@), is_lossy));
        r
    }

    /// The number of input bytes that decoded to scalar values.
    pub fn valid_bytes(&self) -> (r: usize)
        requires
            self.wf(),
        ensures
            r == self.decoder().valid_count(),
            r + self.decoder().invalid_count() <= usize::MAX,
    {
        self.chars.valid_bytes()
    }

    /// The number of input bytes that belonged to invalid sequences.
    pub fn invalid_bytes(&self) -> (r: usize)
        ensures
            r == self.decoder().invalid_count(),
    {
        self.chars.invalid_bytes()
    }

    /// The bytes of the decoded text kept so far.
    pub fn bytes(&self) -> (r: &[u8])
        ensures
            r@ == self.decoder().collected().bytes_spec(),
    {
        self.chars.bytes()
    }

    /// The number of bytes of decoded text so far.
    pub fn byte_count(&self) -> (r: usize)
        requires
            self.wf(),
        ensures
            r == self.decoder().collected().len_spec(),
    {
        self.chars.byte_count()
    }

    /// Takes the first `k` buffered scalar values as one cluster, with the range
    /// from the start of the first to the end of the last.
    #[verifier::rlimit(40)]
    fn take_front(&mut self, k: usize) -> (r: (String, InclusiveRange))
        requires
            old(self).wf(),
            0 < k <= old(self).buffer@.len(),
        ensures
            final(self).wf(),
            final(self).chars == old(self).chars,
            final(self).pending_error == old(self).pending_error,
            final(self).buffer@ == old(self).buffer@.subrange(k as int, old(self).buffer@.len() as int),
            final(self).ranges@ == old(self).ranges@.subrange(k as int, old(self).ranges@.len() as int),
            r.0@ == old(self).buffer@.subrange(0, k as int),
            r.1.start == old(self).ranges@[0].start,
            r.1.end == old(self).ranges@[k - 1].end,
            r.1.end + 1 - r.1.start == utf8_size(r.0@),
            r.1.end + 1 == final(self).next_byte(),
            r.1.start <= r.1.end < old(self).chars.collected().len_spec(),
            forall|i: int| 0 <= i < final(self).ranges@.len() ==> r.1.end < #[trigger] final(self).ranges@[i].start,
    {
        let range = InclusiveRange::new(self.ranges[0].start, self.ranges[k - 1].end);
        self.checked = 0;
        let mut rest = self.buffer.split_off(k);
        std::mem::swap(&mut self.buffer, &mut rest);
        let mut rest_ranges = self.ranges.split_off(k);
        std::mem::swap(&mut self.ranges, &mut rest_ranges);
        proof {
            let before = old(self).ranges@;
            lemma_contiguous_prefix(before, old(self).buffer@, k as int);
            assert(self.ranges@ =~= before.subrange(k as int, before.len() as int));
            assert(self.buffer@ =~= old(self).buffer@.subrange(k as int, before.len() as int));
            assert(rest@ =~= old(self).buffer@.subrange(0, k as int));
            if k < before.len() {
                assert(before[k - 1].end + 1 == before[k as int].start);
                assert(self.ranges@[0] == before[k as int]);
                assert(self.ranges@.last() == before.last());
            }
            if k > 1 {
                assert(before[0].end < before[k - 1].start);
            }
            assert forall|i: int| 0 <= i < self.ranges@.len() implies range.end
                < #[trigger] self.ranges@[i].start by {
                assert(self.ranges@[i] == before[i + k]);
                assert(before[k - 1].end < before[i + k].start);
            }
            assert forall|i: int, j: int|
                #![trigger self.ranges@[i], self.ranges@[j]]
                0 <= i < j < self.ranges@.len() implies self.ranges@[i].end
                < self.ranges@[j].start by {
                assert(self.ranges@[i] == before[i + k]);
                assert(self.ranges@[j] == before[j + k]);
            }
        }
        (string_of(rest.as_slice()), range)
    }
}

/// `p` is the text of the scalar values at the front of `u`.
pub open spec fn scalar_prefix(p: Seq<char>, u: Seq<DecodedUnit>) -> bool {
    p.len() <= u.len() && u.subrange(0, p.len() as int) == as_scalars(p)
}

/// Each of the first `n` prefixes of `s` (the first one, two, ... `n`
/// scalar values) is less than two clusters.
pub open spec fn prefixes_single(s: Seq<char>, n: int) -> bool {
    forall|m: int| 1 <= m <= n ==> #[trigger] grapheme_clusters(s.subrange(0, m)).len() < 2
}

/// `g` is the cluster that comes first from a text whose units, from `g` on,
/// are `g` and then `after`: the first cluster of the shortest prefix of the
/// scalar values there that holds two clusters; or, when no prefix does, all
/// the scalar values up to the end of input or an invalid sequence.
pub open spec fn cluster_ok(g: Seq<char>, after: Seq<DecodedUnit>) -> bool {
    ||| exists|p: Seq<char>|
        #![trigger scalar_prefix(p, as_scalars(g) + after)]
        scalar_prefix(p, as_scalars(g) + after) && g.len() < p.len() && grapheme_clusters(p).len()
            >= 2 && grapheme_clusters(p)[0] == g && prefixes_single(p, p.len() - 1)
    ||| prefixes_single(g, g.len() as int) && (after.len() == 0 || after[0] is Err)
}

/// Scalar values at the front of a unit sequence are those units.
proof fn lemma_scalar_prefix_chars(p: Seq<char>, u: Seq<DecodedUnit>)
    requires
        scalar_prefix(p, u),
    ensures
        forall|i: int| 0 <= i < p.len() ==> #[trigger] u[i] == scalar(p[i]),
{
    assert forall|i: int| 0 <= i < p.len() implies #[trigger] u[i] == scalar(p[i]) by {
        assert(u.subrange(0, p.len() as int)[i] == as_scalars(p)[i]);
    }
}

/// Two scalar prefixes of one unit sequence agree on their common length.
proof fn lemma_scalar_prefixes_agree(p: Seq<char>, q: Seq<char>, u: Seq<DecodedUnit>)
    requires
        scalar_prefix(p, u),
        scalar_prefix(q, u),
        p.len() <= q.len(),
    ensures
        p == q.subrange(0, p.len() as int),
{
    lemma_scalar_prefix_chars(p, u);
    lemma_scalar_prefix_chars(q, u);
    assert forall|i: int| 0 <= i < p.len() implies p[i] == q.subrange(0, p.len() as int)[i] by {
        assert(u[i] == scalar(p[i]));
        assert(u[i] == scalar(q[i]));
    }
    assert(p =~= q.subrange(0, p.len() as int));
}

/// The grapheme handed out is determined by the units from it on: two
/// clusters that both meet `cluster_ok` over the same units are equal.
pub proof fn lemma_cluster_determined(
    g1: Seq<char>,
    after1: Seq<DecodedUnit>,
    g2: Seq<char>,
    after2: Seq<DecodedUnit>,
)
    requires
        as_scalars(g1) + after1 == as_scalars(g2) + after2,
        cluster_ok(g1, after1),
        cluster_ok(g2, after2),
    ensures
        g1 == g2,
{
    let u = as_scalars(g1) + after1;
    assert(scalar_prefix(g1, u)) by {
        assert(u.subrange(0, g1.len() as int) =~= as_scalars(g1));
    }
    assert(scalar_prefix(g2, u)) by {
        assert(u.subrange(0, g2.len() as int) =~= as_scalars(g2));
    }
    lemma_cluster_first(g1, after1, g2, after2);
    lemma_cluster_first(g2, after2, g1, after1);
    if g1.len() <= g2.len() {
        lemma_scalar_prefixes_agree(g1, g2, u);
    } else {
        lemma_scalar_prefixes_agree(g2, g1, u);
    }
}

/// Half of `lemma_cluster_determined`: `g1` is no longer than `g2`.
proof fn lemma_cluster_first(
    g1: Seq<char>,
    after1: Seq<DecodedUnit>,
    g2: Seq<char>,
    after2: Seq<DecodedUnit>,
)
    requires
        as_scalars(g1) + after1 == as_scalars(g2) + after2,
        cluster_ok(g1, after1),
        cluster_ok(g2, after2),
        scalar_prefix(g1, as_scalars(g1) + after1),
        scalar_prefix(g2, as_scalars(g1) + after1),
    ensures
        g1.len() <= g2.len(),
{
    let u = as_scalars(g1) + after1;
    if g1.len() > g2.len() {
        // g2 is a proper prefix of g1.
        lemma_scalar_prefixes_agree(g2, g1, u);
        // g2 stops before g1 does, so g2 is the first cluster of some p.
        if prefixes_single(g2, g2.len() as int) && (after2.len() == 0 || after2[0] is Err) {
            lemma_scalar_prefix_chars(g1, u);
            assert(u[g2.len() as int] == scalar(g1[g2.len() as int]));
            assert(u[g2.len() as int] == after2[0]);
        } else {
            let p = choose|p: Seq<char>|
                #![trigger scalar_prefix(p, as_scalars(g2) + after2)]
                scalar_prefix(p, as_scalars(g2) + after2) && g2.len() < p.len()
                    && grapheme_clusters(p).len() >= 2 && grapheme_clusters(p)[0] == g2
                    && prefixes_single(p, p.len() - 1);
            if exists|q: Seq<char>|
                #![trigger scalar_prefix(q, as_scalars(g1) + after1)]
                scalar_prefix(q, as_scalars(g1) + after1) && g1.len() < q.len()
                    && grapheme_clusters(q).len() >= 2 && grapheme_clusters(q)[0] == g1
                    && prefixes_single(q, q.len() - 1) {
                let q = choose|q: Seq<char>|
                    #![trigger scalar_prefix(q, as_scalars(g1) + after1)]
                    scalar_prefix(q, as_scalars(g1) + after1) && g1.len() < q.len()
                        && grapheme_clusters(q).len() >= 2 && grapheme_clusters(q)[0] == g1
                        && prefixes_single(q, q.len() - 1);
                if p.len() < q.len() {
                    lemma_scalar_prefixes_agree(p, q, u);
                    assert(grapheme_clusters(q.subrange(0, p.len() as int)).len() < 2);
                } else if q.len() < p.len() {
                    lemma_scalar_prefixes_agree(q, p, u);
                    assert(grapheme_clusters(p.subrange(0, q.len() as int)).len() < 2);
                } else {
                    lemma_scalar_prefixes_agree(p, q, u);
                    assert(q.subrange(0, p.len() as int) =~= q);
                }
            } else {
                // g1 runs to the end of the scalar values, with no prefix of
                // two clusters; p is such a prefix within it.
                assert(prefixes_single(g1, g1.len() as int));
                assert(after1.len() == 0 || after1[0] is Err);
                if p.len() > g1.len() {
                    lemma_scalar_prefix_chars(p, u);
                    assert(u[g1.len() as int] == scalar(p[g1.len() as int]));
                    assert(u[g1.len() as int] == after1[0]);
                } else {
                    lemma_scalar_prefixes_agree(p, g1, u);
                    if p.len() < g1.len() {
                        assert(grapheme_clusters(g1.subrange(0, p.len() as int)).len() < 2);
                    } else {
                        assert(g1.subrange(0, p.len() as int) =~= g1);
                        assert(g1.subrange(0, g1.len() as int) =~= g1);
                        assert(grapheme_clusters(g1.subrange(0, g1.len() as int)).len() < 2);
                    }
                }
            }
        }
    }
}

/// The first `n` scalar values of `v`, as text.
fn prefix_text(v: &Vec<char>, n: usize) -> (r: String)
    requires
        n <= v@.len(),
    ensures
        r@ == v@.subrange(0, n as int),
{
    let mut out: Vec<char> = Vec::new();
    let mut i: usize = 0;
    while i < n
        invariant
            i <= n <= v@.len(),
            out@ == v@.subrange(0, i as int),
        decreases n - i,
    {
        out.push(v[i]);
        i = i + 1;
        assert(out@ =~= v@.subrange(0, i as int));
    }
    string_of(out.as_slice())
}

impl Clusters {
    /// Buffers a scalar value just decoded, with its byte range.
    fn push_scalar(&mut self, c: char, range: InclusiveRange)
        requires
            old(self).chars.wf(),
            old(self).ranges@.len() == old(self).buffer@.len(),
            old(self).pending_error is None,
            forall|i: int|
                0 <= i < old(self).ranges@.len() ==> #[trigger] old(self).ranges@[i].start
                    <= old(self).ranges@[i].end < range.start,
            forall|i: int, j: int|
                #![trigger old(self).ranges@[i], old(self).ranges@[j]]
                0 <= i < j < old(self).ranges@.len() ==> old(self).ranges@[i].end
                    < old(self).ranges@[j].start,
            contiguous(old(self).ranges@, old(self).buffer@),
            old(self).ranges@.len() > 0 ==> old(self).ranges@.last().end + 1 == range.start,
            range.start <= range.end,
            range.end + 1 == old(self).chars.collected().len_spec(),
            range.end + 1 - range.start == crate::decode::utf8_len(c),
            old(self).checked <= old(self).buffer@.len(),
            prefixes_single(old(self).buffer@, old(self).checked as int),
        ensures
            final(self).wf(),
            final(self).buffer@ == old(self).buffer@.push(c),
            final(self).ranges@ == old(self).ranges@.push(range),
            final(self).chars == old(self).chars,
            final(self).pending_error == old(self).pending_error,
            final(self).checked == old(self).checked,
    {
        proof {
            lemma_contiguous_push(self.ranges@, self.buffer@, range, c);
        }
        let ghost before = *self;
        self.buffer.push(c);
        self.ranges.push(range);
        proof {
            assert forall|m: int| 1 <= m <= self.checked implies #[trigger] grapheme_clusters(
                self.buffer@.subrange(0, m),
            ).len() < 2 by {
                assert(self.buffer@.subrange(0, m) =~= before.buffer@.subrange(0, m));
                assert(grapheme_clusters(before.buffer@.subrange(0, m)).len() < 2);
            }
            assert forall|i: int| 0 <= i < self.ranges@.len() implies #[trigger] self.ranges@[i].start
                <= self.ranges@[i].end < self.chars.collected().len_spec() by {
                if i < before.ranges@.len() {
                    assert(self.ranges@[i] == before.ranges@[i]);
                } else {
                    assert(self.ranges@[i] == range);
                }
            }
            assert forall|i: int, j: int|
                #![trigger self.ranges@[i], self.ranges@[j]]
                0 <= i < j < self.ranges@.len() implies self.ranges@[i].end
                < self.ranges@[j].start by {
                assert(self.ranges@[i] == before.ranges@[i]);
                assert(before.ranges@[i].start <= before.ranges@[i].end < range.start);
                if j < before.ranges@.len() {
                    assert(self.ranges@[j] == before.ranges@[j]);
                }
            }
        }
    }
}

impl Clusters {
    /// The next cluster with its byte range, or the bytes of an invalid
    /// sequence in strict mode; `None` once the input is used up.
    ///
    /// A cluster is handed out once the text buffered after it starts another
    /// cluster, or when the input ends or an invalid sequence follows it.
    #[verifier::rlimit(100)]
    #[verifier::spinoff_prover]
    pub fn next(&mut self) -> (r: Option<ClusterResult>)
        requires
            old(self).wf(),
        ensures
            final(self).wf(),
            final(self).decoder().lossy() == old(self).decoder().lossy(),
            final(self).decoder().collected().is_void() == old(self).decoder().collected().is_void(),
            r is None <==> old(self).remaining().len() == 0,
            r is None ==> final(self).remaining() == old(self).remaining(),
            r matches Some(Err(e)) ==> old(self).remaining()
                == seq![invalid(e@)] + final(self).remaining(),
            r matches Some(Ok((g, range))) ==> g@.len() > 0
                && old(self).remaining() == as_scalars(g@) + final(self).remaining()
                && range.start <= range.end < final(self).decoder().collected().len_spec(),
            r matches Some(Ok((g, range))) ==> cluster_ok(g@, final(self).remaining()),
            r matches Some(Ok((g, range))) ==> range.start == old(self).next_byte() && range.end + 1
                == final(self).next_byte() && range.end + 1 - range.start == utf8_size(g@),
            !(r matches Some(Ok(_))) ==> final(self).next_byte() == old(self).next_byte(),
    {
        if self.pending_error.is_some() {
            let mut held: Option<Vec<u8>> = None;
            std::mem::swap(&mut self.pending_error, &mut held);
            proof {
                assert(self.remaining() =~= as_scalars(self.buffer@) + effective(self.chars.pending(), self.chars.lossy()));
                assert(as_scalars(self.buffer@) =~= Seq::<DecodedUnit>::empty());
                assert(old(self).remaining() =~= seq![invalid(held->Some_0@)] + self.remaining());
            }
            return match held {
                Some(e) => Some(Err(e)),
                None => None,
            };
        }
        loop
            invariant
                self.wf(),
                self.pending_error is None,
                self.remaining() == old(self).remaining(),
                self.next_byte() == old(self).next_byte(),
                self.chars.lossy() == old(self).chars.lossy(),
                self.chars.collected().is_void() == old(self).chars.collected().is_void(),
            decreases self.chars.pending().len(), self.buffer@.len() - self.checked,
        {
            if self.checked < self.buffer.len() {
                let n = self.checked + 1;
                let text = prefix_text(&self.buffer, n);
                let parts = clusters_of(text.as_str());
                let ghost p = self.buffer@.subrange(0, n as int);
                proof {
                    assert(cluster_views(parts@) =~= grapheme_clusters(p));
                }
                if parts.len() >= 2 {
                    let k = parts[0].len();
                    let ghost whole = self.buffer@;
                    proof {
                        lemma_first_part_shorter(cluster_views(parts@), p);
                        lemma_as_scalars_split(self.buffer@, k as int);
                        assert(p.subrange(0, k as int) =~= whole.subrange(0, k as int));
                    }
                    let ghost mid = *self;
                    let front = self.take_front(k);
                    proof {
                        assert(self.remaining() =~= as_scalars(self.buffer@) + effective(self.chars.pending(), self.chars.lossy()));
                        assert(mid.remaining() =~= as_scalars(mid.buffer@) + effective(mid.chars.pending(), mid.chars.lossy()));
                        assert(old(self).remaining() =~= as_scalars(front.0@) + self.remaining());
                        assert(cluster_views(parts@)[0] == parts@[0]@);
                        let u = as_scalars(front.0@) + self.remaining();
                        assert(u.subrange(0, p.len() as int) =~= as_scalars(p));
                        assert(scalar_prefix(p, u));
                        assert forall|m: int| 1 <= m <= p.len() - 1 implies #[trigger] grapheme_clusters(
                            p.subrange(0, m),
                        ).len() < 2 by {
                            assert(p.subrange(0, m) =~= whole.subrange(0, m));
                        }
                    }
                    return Some(Ok(front));
                }
                self.checked = n;
                proof {
                    assert forall|m: int| 1 <= m <= n implies #[trigger] grapheme_clusters(
                        self.buffer@.subrange(0, m),
                    ).len() < 2 by {
                        if m == n {
                            assert(p == self.buffer@.subrange(0, m));
                        }
                    }
                }
                continue;
            }
            let ghost before = *self;
            proof {
                assert(self.remaining() =~= as_scalars(self.buffer@) + effective(self.chars.pending(), self.chars.lossy()));
                if self.chars.pending().len() > 0 {
                    lemma_effective_step(self.chars.pending(), self.chars.lossy());
                }
            }
            match self.chars.next() {
                Some(Ok((c, range))) => {
                    proof {
                        assert forall|i: int| 0 <= i < before.ranges@.len() implies #[trigger] before.ranges@[i].start
                            <= before.ranges@[i].end < range.start by {}
                    }
                    self.push_scalar(c, range);
                    proof {
                        assert(as_scalars(self.buffer@) =~= as_scalars(before.buffer@) + seq![scalar(c)]);
                        assert(self.remaining() =~= as_scalars(self.buffer@) + effective(self.chars.pending(), self.chars.lossy()));
                    }
                },
                Some(Err(e)) => {
                    if self.buffer.len() == 0 {
                        proof {
                            assert(as_scalars(self.buffer@) =~= Seq::<DecodedUnit>::empty());
                            assert(self.remaining() =~= effective(self.chars.pending(), self.chars.lossy()));
                            assert(old(self).remaining() =~= seq![invalid(e@)] + self.remaining());
                        }
                        return Some(Err(e));
                    }
                    let k = self.buffer.len();
                    proof {
                        lemma_as_scalars_split(self.buffer@, k as int);
                        assert(self.buffer@.subrange(0, k as int) =~= self.buffer@);
                        assert forall|i: int| 0 <= i < self.ranges@.len() implies #[trigger] self.ranges@[i].start
                            <= self.ranges@[i].end < self.chars.collected().len_spec() by {
                            assert(before.ranges@[i].start <= before.ranges@[i].end
                                < before.chars.collected().len_spec());
                        }
                    }
                    let front = self.take_front(k);
                    self.pending_error = Some(e);
                    proof {
                        assert(self.buffer@.len() == 0);
                        assert(as_scalars(self.buffer@) =~= Seq::<DecodedUnit>::empty());
                        assert(self.remaining() =~= seq![invalid(e@)] + effective(self.chars.pending(), self.chars.lossy()));
                        assert(old(self).remaining() =~= as_scalars(front.0@) + self.remaining());
                    }
                    return Some(Ok(front));
                },
                None => {
                    if self.buffer.len() == 0 {
                        proof {
                            assert(as_scalars(self.buffer@) =~= Seq::<DecodedUnit>::empty());
                            assert(self.remaining() =~= Seq::<DecodedUnit>::empty());
                        }
                        return None;
                    }
                    let k = self.buffer.len();
                    proof {
                        lemma_as_scalars_split(self.buffer@, k as int);
                        assert(self.buffer@.subrange(0, k as int) =~= self.buffer@);
                    }
                    let front = self.take_front(k);
                    proof {
                        assert(as_scalars(self.buffer@) =~= Seq::<DecodedUnit>::empty());
                        assert(self.remaining() =~= Seq::<DecodedUnit>::empty());
                        assert(old(self).remaining() =~= as_scalars(front.0@) + self.remaining());
                    }
                    return Some(Ok(front));
                },
            }
        }
    }
}

} // verus!
