use vstd::prelude::*;
use vstd::string::StringExecFns;

use crate::clusters::{as_scalars, cluster_ok, effective, utf8_size, ClusterResult, Clusters};
use crate::decode::{invalid, lemma_units_len, units_of, DecodedUnit, InclusiveRange};
use crate::error::LexError;

verus! {

/// Where a grapheme stands in the input: its index among graphemes, its bytes
/// in the collected text, and its zero-based line and column.
#[derive(Debug, Clone, Copy, PartialEq, Eq)]
pub struct GraphemeLocation {
    pub index: usize,
    pub byte_range: InclusiveRange,
    pub line: usize,
    pub column: usize,
}

/// Whether a grapheme ends a line: `"\n"` or `"\r\n"`.
pub open spec fn line_break(g: Seq<char>) -> bool {
    g == seq!['\n'] || g == seq!['\r', '\n']
}

/// Whether `g` is `"\n"` or `"\r\n"`.
pub fn is_line_break(g: &String) -> (r: bool)
    ensures
        r == line_break(g@),
{
    let lf = "\n".to_owned();
    let crlf = "\r\n".to_owned();
    proof {
        reveal_strlit("\n");
        reveal_strlit("\r\n");
        assert(lf@ =~= seq!['\n']);
        assert(crlf@ =~= seq!['\r', '\n']);
    }
    *g == lf || *g == crlf
}

/// A cluster result as a cluster stream hands it out: a non-empty cluster
/// with an ordered range.
pub open spec fn item_ok(x: ClusterResult) -> bool {
    x matches Ok((g, r)) ==> g@.len() > 0 && r.start <= r.end
}

/// The item at `i` of a look-ahead queue is well formed, and a cluster given
/// the units that come after it: those of the later items, then `rem`.
pub open spec fn queue_item_ok(q: Seq<ClusterResult>, i: int, rem: Seq<DecodedUnit>) -> bool {
    &&& item_ok(q[i])
    &&& q[i] matches Ok((g, _)) ==> cluster_ok(
        g@,
        queue_units(q.subrange(i + 1, q.len() as int)) + rem,
    )
}

/// The units that a cluster result stands for.
pub open spec fn item_units(x: ClusterResult) -> Seq<DecodedUnit> {
    match x {
        Ok((g, _)) => as_scalars(g@),
        Err(e) => seq![invalid(e@)],
    }
}

/// The units that a queue of cluster results stands for.
pub open spec fn queue_units(q: Seq<ClusterResult>) -> Seq<DecodedUnit>
    decreases q.len(),
{
    if q.len() == 0 {
        Seq::empty()
    } else {
        item_units(q[0]) + queue_units(q.drop_first())
    }
}

proof fn lemma_queue_units_push(q: Seq<ClusterResult>, x: ClusterResult)
    ensures
        queue_units(q.push(x)) == queue_units(q) + item_units(x),
    decreases q.len(),
{
    if q.len() == 0 {
        assert(q.push(x).drop_first() =~= Seq::<ClusterResult>::empty());
        assert(queue_units(q.push(x).drop_first()) == Seq::<DecodedUnit>::empty());
        assert(q.push(x)[0] == x);
        assert(queue_units(q.push(x)) =~= queue_units(q) + item_units(x));
    } else {
        lemma_queue_units_push(q.drop_first(), x);
        assert(q.push(x).drop_first() =~= q.drop_first().push(x));
        assert(q.push(x)[0] == q[0]);
        assert(queue_units(q.push(x)) == item_units(q[0]) + queue_units(q.drop_first().push(x)));
        assert(queue_units(q.push(x)) =~= queue_units(q) + item_units(x));
    }
}

proof fn lemma_push_keeps_item(
    q: Seq<ClusterResult>,
    x: ClusterResult,
    i: int,
    rem_old: Seq<DecodedUnit>,
    rem_new: Seq<DecodedUnit>,
)
    requires
        0 <= i < q.len(),
        rem_old == item_units(x) + rem_new,
        queue_item_ok(q, i, rem_old),
    ensures
        queue_item_ok(q.push(x), i, rem_new),
{
    let tail = q.subrange(i + 1, q.len() as int);
    assert(q.push(x).subrange(i + 1, q.len() as int + 1) =~= tail.push(x));
    lemma_queue_units_push(tail, x);
    assert(queue_units(tail.push(x)) + rem_new =~= queue_units(tail) + rem_old);
    assert(q.push(x)[i] == q[i]);
}

proof fn lemma_pop_keeps_item(q: Seq<ClusterResult>, i: int, rem: Seq<DecodedUnit>)
    requires
        0 <= i,
        i + 1 < q.len(),
        queue_item_ok(q, i + 1, rem),
    ensures
        queue_item_ok(q.drop_first(), i, rem),
{
    assert(q.drop_first().subrange(i + 1, q.len() as int - 1) =~= q.subrange(i + 2, q.len() as int));
    assert(q.drop_first()[i] == q[i + 1]);
}

/// Where the bytes of the next grapheme start, given a look-ahead queue and
/// the position `nb` after it.
pub open spec fn queue_next_byte(q: Seq<ClusterResult>, nb: nat) -> nat
    decreases q.len(),
{
    if q.len() == 0 {
        nb
    } else {
        match q[0] {
            Ok((_, r)) => r.start as nat,
            Err(_) => queue_next_byte(q.drop_first(), nb),
        }
    }
}

/// The cluster at `i` of a queue ends just before the bytes that come next,
/// and its range holds its UTF-8 encoding.
pub open spec fn item_bytes_ok(q: Seq<ClusterResult>, i: int, nb: nat) -> bool {
    q[i] matches Ok((g, r)) ==> r.end + 1 == queue_next_byte(q.subrange(i + 1, q.len() as int), nb)
        && r.end + 1 - r.start == utf8_size(g@)
}

/// An item that starts where the queue's bytes end, and after which the
/// bytes go on at `nb2`, keeps where the queue's next grapheme starts.
proof fn lemma_queue_next_byte_push(q: Seq<ClusterResult>, x: ClusterResult, nb1: nat, nb2: nat)
    requires
        x matches Ok((_, r)) ==> r.start == nb1,
        x is Err ==> nb2 == nb1,
    ensures
        queue_next_byte(q.push(x), nb2) == queue_next_byte(q, nb1),
    decreases q.len(),
{
    if q.len() == 0 {
        assert(q.push(x).drop_first() =~= Seq::<ClusterResult>::empty());
        assert(q.push(x)[0] == x);
        assert(queue_next_byte(Seq::<ClusterResult>::empty(), nb2) == nb2);
        assert(queue_next_byte(q, nb1) == nb1);
    } else {
        assert(q.push(x)[0] == q[0]);
        assert(q.push(x).drop_first() =~= q.drop_first().push(x));
        lemma_queue_next_byte_push(q.drop_first(), x, nb1, nb2);
    }
}

/// A grapheme stream with lookahead and location bookkeeping.
///
/// `peek` looks further ahead at each call until `reset_peek` or `next`;
/// only `next` moves the location forward.
pub struct Graphemes {
    pub(crate) iter: Clusters,
    count: usize,
    column: usize,
    after_break: bool,
    lines: Vec<String>,
    queue: std::collections::VecDeque<ClusterResult>,
    peek_index: usize,
    last_byte_index: usize,
    budget: Ghost<nat>,
}

/// The text of each line as a sequence.
pub open spec fn lines_view(lines: Seq<String>) -> Seq<Seq<char>> {
    lines.map_values(|l: String| l@)
}

impl Graphemes {
    /// The number of graphemes that `next` has handed out.
    pub closed spec fn count_spec(&self) -> nat {
        self.count as nat
    }

    /// The column of the last grapheme handed out.
    pub closed spec fn column_spec(&self) -> nat {
        self.column as nat
    }

    /// Whether the last grapheme handed out ends a line.
    pub closed spec fn after_break_spec(&self) -> bool {
        self.after_break
    }

    /// The text of each line seen so far, line breaks left out.
    pub closed spec fn lines_spec(&self) -> Seq<Seq<char>> {
        lines_view(self.lines@)
    }

    /// The end of the bytes of the last grapheme handed out.
    pub closed spec fn last_byte_spec(&self) -> nat {
        self.last_byte_index as nat
    }

    /// How far `peek` has looked ahead.
    pub closed spec fn peek_depth(&self) -> nat {
        self.peek_index as nat
    }

    /// The units still to come, looked-ahead ones included.
    pub closed spec fn upcoming(&self) -> Seq<DecodedUnit> {
        queue_units(self.queue@) + self.iter.remaining()
    }

    /// Where the bytes of the next grapheme start in the decoded text.
    pub closed spec fn next_byte(&self) -> nat {
        queue_next_byte(self.queue@, self.iter.next_byte())
    }

    /// The cluster stream underneath.
    pub closed spec fn clusters(&self) -> Clusters {
        self.iter
    }

    pub closed spec fn wf(&self) -> bool {
        &&& self.iter.wf()
        &&& self.lines@.len() >= 1
        &&& self.peek_index <= self.queue@.len()
        &&& self.count + self.queue@.len() + self.iter.remaining().len() <= self.budget@
        &&& self.budget@ <= usize::MAX / 8
        &&& self.column <= self.count
        &&& self.lines@.len() <= self.count + 1
        &&& self.after_break ==> self.lines@.len() <= self.count
        &&& forall|i: int|
            0 <= i < self.queue@.len() ==> #[trigger] queue_item_ok(
                self.queue@,
                i,
                self.iter.remaining(),
            )
        &&& forall|i: int|
            0 <= i < self.queue@.len() ==> #[trigger] item_bytes_ok(
                self.queue@,
                i,
                self.iter.next_byte(),
            )
    }

    /// The number of cluster results looked ahead at and held.
    pub closed spec fn lookahead_len(&self) -> nat {
        self.queue@.len()
    }

    /// The cluster result that `peek` looked at as its `i`-th step ahead.
    pub closed spec fn looked_ahead(&self, i: int) -> ClusterResult {
        self.queue@[i]
    }

    /// A well-formed stream has at least one line.
    pub proof fn lemma_has_line(&self)
        requires
            self.wf(),
        ensures
            self.lines_spec().len() >= 1,
    {
    }

    /// The cluster stream underneath.
    pub fn inner(&self) -> (r: &Clusters)
        ensures
            *r == self.clusters(),
    {
        &self.iter
    }

    /// The cluster stream underneath, to change. Changing it may leave the
    /// stream no longer well formed.
    pub fn inner_mut(&mut self) -> (r: &mut Clusters)
        ensures
            *r == old(self).clusters(),
            final(self).clusters() == *final(r),
            final(self).count_spec() == old(self).count_spec(),
            final(self).column_spec() == old(self).column_spec(),
            final(self).lines_spec() == old(self).lines_spec(),
            final(self).peek_depth() == old(self).peek_depth(),
            final(self).lookahead_len() == old(self).lookahead_len(),
    {
        &mut self.iter
    }

    /// The text of each line seen so far, to change.
    pub fn lines_mut(&mut self) -> (r: &mut [String])
        ensures
            lines_view(r@) == old(self).lines_spec(),
            final(self).lines_spec() == lines_view(final(r)@),
            final(self).count_spec() == old(self).count_spec(),
            final(self).column_spec() == old(self).column_spec(),
            final(self).clusters() == old(self).clusters(),
            final(self).upcoming() == old(self).upcoming(),
    {
        self.lines.as_mut_slice()
    }

    /// The counters fit in a `usize`.
    pub proof fn lemma_counters_fit(&self)
        ensures
            self.count_spec() <= usize::MAX,
            self.column_spec() <= usize::MAX,
            self.last_byte_spec() <= usize::MAX,
    {
    }

    /// The index of the last grapheme handed out (zero before the first).
    pub open spec fn current_index_spec(&self) -> nat {
        if self.count_spec() == 0 {
            0
        } else {
            (self.count_spec() - 1) as nat
        }
    }

    /// The line of the last grapheme handed out.
    pub open spec fn current_line_spec(&self) -> nat {
        (self.lines_spec().len() - 1) as nat
    }

    /// The line the next grapheme falls on: one further after a line break.
    pub open spec fn next_line_spec(&self) -> nat {
        if self.count_spec() > 0 && self.after_break_spec() {
            self.lines_spec().len()
        } else {
            self.current_line_spec()
        }
    }

    /// The column the next grapheme falls on: zero at the start of the input
    /// and after a line break, else one past the last grapheme's.
    pub open spec fn next_column_spec(&self) -> nat {
        if self.count_spec() == 0 || self.after_break_spec() {
            0
        } else {
            self.column_spec() + 1
        }
    }

    /// The lines once `g` is handed out: a new, empty line after a line break,
    /// then `g` added to the last line unless it is itself a line break.
    pub open spec fn lines_after(&self, g: Seq<char>) -> Seq<Seq<char>> {
        let base = if self.count_spec() > 0 && self.after_break_spec() {
            self.lines_spec().push(Seq::empty())
        } else {
            self.lines_spec()
        };
        if line_break(g) {
            base
        } else {
            base.drop_last().push(base.last() + g)
        }
    }

    /// A stream over the graphemes of `bytes`; `is_lossy` replaces invalid
    /// sequences, `void` keeps the decoded text from being stored.
    pub fn new(bytes: Vec<u8>, is_lossy: bool, void: bool) -> (r: Graphemes)
        requires
            bytes@.len() <= usize::MAX / 8,
        ensures
            r.wf(),
            r.upcoming() == effective(units_of(bytes@), is_lossy),
            r.count_spec() == 0,
            r.column_spec() == 0,
            r.lines_spec() == seq![Seq::<char>::empty()],
            r.peek_depth() == 0,
            r.next_byte() == 0,
            r.clusters().decoder().lossy() == is_lossy,
            r.clusters().decoder().valid_count() == 0,
            r.clusters().decoder().invalid_count() == 0,
            r.clusters().decoder().collected().is_void() == void,
    {
        proof {
            lemma_units_len(bytes@);
        }
        let iter = Clusters::new(bytes, is_lossy, void);
        let mut lines: Vec<String> = Vec::new();
        lines.push(String::new());
        let r = Graphemes {
            iter,
            count: 0,
            column: 0,
            after_break: false,
            lines,
            queue: std::collections::VecDeque::new(),
            peek_index: 0,
            last_byte_index: 0,
            budget: Ghost(units_of(bytes@).len()),
        };
        assert(r.upcoming() =~= effective(units_of(bytes@), is_lossy));
        assert(lines_view(r.lines@) =~= seq![Seq::<char>::empty()]);
        r
    }

    /// A lossy stream that keeps no decoded text.
    pub fn from(bytes: Vec<u8>) -> (r: Graphemes)
        requires
            bytes@.len() <= usize::MAX / 8,
        ensures
            r.wf(),
            r.upcoming() == effective(units_of(bytes@), true),
            r.count_spec() == 0,
            r.clusters().decoder().lossy(),
            r.clusters().decoder().collected().is_void(),
    {
        Graphemes::new(bytes, true, true)
    }

    /// The bytes of the decoded text kept so far.
    pub fn bytes(&self) -> (r: &[u8])
        ensures
            r@ == self.clusters().decoder().collected().bytes_spec(),
    {
        self.iter.bytes()
    }

    /// The number of bytes of decoded text so far, looked-ahead text included.
    pub fn byte_count(&self) -> (r: usize)
        requires
            self.wf(),
        ensures
            r == self.clusters().decoder().collected().len_spec(),
    {
        self.iter.byte_count()
    }

    /// The number of input bytes that decoded to scalar values.
    pub fn valid_bytes(&self) -> (r: usize)
        requires
            self.wf(),
        ensures
            r == self.clusters().decoder().valid_count(),
            r + self.clusters().decoder().invalid_count() <= usize::MAX,
    {
        self.iter.valid_bytes()
    }

    /// The number of input bytes that belonged to invalid sequences.
    pub fn invalid_bytes(&self) -> (r: usize)
        ensures
            r == self.clusters().decoder().invalid_count(),
    {
        self.iter.invalid_bytes()
    }

    /// The number of graphemes handed out by `next`.
    pub fn grapheme_count(&self) -> (r: usize)
        ensures
            r == self.count_spec(),
    {
        self.count
    }

    /// The line of the last grapheme handed out.
    pub fn current_line(&self) -> (r: usize)
        requires
            self.wf(),
        ensures
            r == self.current_line_spec(),
    {
        self.lines.len() - 1
    }

    /// The column of the last grapheme handed out.
    pub fn current_column(&self) -> (r: usize)
        ensures
            r == self.column_spec(),
    {
        self.column
    }

    /// The index of the last grapheme handed out.
    pub fn current_index(&self) -> (r: usize)
        ensures
            r == self.current_index_spec(),
    {
        if self.count == 0 {
            0
        } else {
            self.count - 1
        }
    }

    /// The end of the bytes of the last grapheme handed out.
    pub fn current_byte_index(&self) -> (r: usize)
        ensures
            r == self.last_byte_spec(),
    {
        self.last_byte_index
    }

    /// The text of each line seen so far.
    pub fn lines(&self) -> (r: &[String])
        ensures
            lines_view(r@) == self.lines_spec(),
    {
        self.lines.as_slice()
    }

    /// Looks one grapheme further ahead, without moving the location. The
    /// location given has the index of the last grapheme handed out, and the
    /// line and column the grapheme would have if it came next.
    pub fn peek(&mut self) -> (r: Option<(String, GraphemeLocation)>)
        requires
            old(self).wf(),
        ensures
            final(self).wf(),
            final(self).upcoming() == old(self).upcoming(),
            final(self).count_spec() == old(self).count_spec(),
            final(self).column_spec() == old(self).column_spec(),
            final(self).after_break_spec() == old(self).after_break_spec(),
            final(self).lines_spec() == old(self).lines_spec(),
            final(self).last_byte_spec() == old(self).last_byte_spec(),
            final(self).next_byte() == old(self).next_byte(),
            r is None ==> final(self).peek_depth() == old(self).peek_depth(),
            r is None ==> (old(self).peek_depth() < final(self).lookahead_len()
                && final(self).looked_ahead(old(self).peek_depth() as int) is Err) || (
            old(self).peek_depth() == final(self).lookahead_len()
                && final(self).clusters().remaining().len() == 0),
            r matches Some((g, loc)) ==> {
                &&& final(self).peek_depth() == old(self).peek_depth() + 1
                &&& old(self).peek_depth() < final(self).lookahead_len()
                &&& final(self).looked_ahead(old(self).peek_depth() as int) == Ok::<
                    (String, InclusiveRange),
                    Vec<u8>,
                >((g, loc.byte_range))
                &&& loc.byte_range.start <= loc.byte_range.end
                &&& loc.index == old(self).current_index_spec()
                &&& loc.line == old(self).next_line_spec()
                &&& loc.column == old(self).next_column_spec()
            },
    {
        if self.peek_index >= self.queue.len() {
            let ghost before = *self;
            match self.iter.next() {
                Some(x) => {
                    self.queue.push_back(x);
                    proof {
                        lemma_queue_units_push(before.queue@, x);
                        assert(self.upcoming() =~= before.upcoming());
                        assert forall|i: int|
                            0 <= i < self.queue@.len() implies #[trigger] item_bytes_ok(
                                self.queue@,
                                i,
                                self.iter.next_byte(),
                            ) by {
                            let q = before.queue@;
                            if i < q.len() {
                                assert(item_bytes_ok(q, i, before.iter.next_byte()));
                                assert(self.queue@.subrange(i + 1, self.queue@.len() as int)
                                    =~= q.subrange(i + 1, q.len() as int).push(x));
                                lemma_queue_next_byte_push(
                                    q.subrange(i + 1, q.len() as int),
                                    x,
                                    before.iter.next_byte(),
                                    self.iter.next_byte(),
                                );
                                assert(self.queue@[i] == q[i]);
                            } else {
                                assert(self.queue@.subrange(i + 1, self.queue@.len() as int)
                                    =~= Seq::<ClusterResult>::empty());
                                assert(queue_next_byte(Seq::<ClusterResult>::empty(), self.iter.next_byte())
                                    == self.iter.next_byte());
                            }
                        }
                        lemma_queue_next_byte_push(
                            before.queue@,
                            x,
                            before.iter.next_byte(),
                            self.iter.next_byte(),
                        );
                        assert forall|i: int|
                            0 <= i < self.queue@.len() implies #[trigger] queue_item_ok(
                                self.queue@,
                                i,
                                self.iter.remaining(),
                            ) by {
                            if i < before.queue@.len() {
                                assert(queue_item_ok(before.queue@, i, before.iter.remaining()));
                                lemma_push_keeps_item(
                                    before.queue@,
                                    x,
                                    i,
                                    before.iter.remaining(),
                                    self.iter.remaining(),
                                );
                            } else {
                                assert(self.queue@.subrange(i + 1, self.queue@.len() as int)
                                    =~= Seq::<ClusterResult>::empty());
                                assert(queue_units(Seq::<ClusterResult>::empty()) + self.iter.remaining()
                                    =~= self.iter.remaining());
                            }
                        }
                    }
                },
                None => {
                    return None;
                },
            }
        }
        let ghost depth = self.peek_index;
        let item = &self.queue[self.peek_index];
        assert(queue_item_ok(self.queue@, depth as int, self.iter.remaining()));
        match item {
            Ok((g, range)) => {
                let new_line = self.count > 0 && self.after_break;
                let line = if new_line {
                    self.lines.len()
                } else {
                    self.lines.len() - 1
                };
                let column = if self.count == 0 || self.after_break {
                    0
                } else {
                    self.column + 1
                };
                let location = GraphemeLocation {
                    index: self.current_index(),
                    byte_range: *range,
                    line,
                    column,
                };
                self.peek_index = self.peek_index + 1;
                Some((g.clone(), location))
            },
            Err(_) => None,
        }
    }

    /// Hands out the next grapheme with its location, and moves the location
    /// forward; an invalid sequence in strict mode comes back as an error with
    /// the number of graphemes read before it.
    pub fn next(&mut self) -> (r: Option<Result<(String, GraphemeLocation), LexError>>)
        requires
            old(self).wf(),
        ensures
            final(self).wf(),
            final(self).peek_depth() == 0,
            final(self).clusters().decoder().lossy() == old(self).clusters().decoder().lossy(),
            r is None <==> old(self).upcoming().len() == 0,
            !(r matches Some(Ok(_))) ==> final(self).count_spec() == old(self).count_spec()
                && final(self).column_spec() == old(self).column_spec()
                && final(self).after_break_spec() == old(self).after_break_spec()
                && final(self).lines_spec() == old(self).lines_spec()
                && final(self).last_byte_spec() == old(self).last_byte_spec(),
            r is None ==> final(self).upcoming() == old(self).upcoming(),
            r matches Some(Err(e)) ==> e matches LexError::InvalidBytes { bytes, index }
                && index == old(self).count_spec()
                && old(self).upcoming() == seq![invalid(bytes@)] + final(self).upcoming(),
            old(self).lookahead_len() > 0 ==> final(self).lookahead_len() == old(
                self,
            ).lookahead_len() - 1,
            forall|i: int|
                0 <= i < old(self).lookahead_len() - 1 ==> #[trigger] final(self).looked_ahead(i)
                    == old(self).looked_ahead(i + 1),
            old(self).lookahead_len() > 0 ==> match old(self).looked_ahead(0) {
                Ok((g0, range0)) => r matches Some(Ok((g, loc))) && g == g0 && loc.byte_range
                    == range0,
                Err(e0) => r matches Some(Err(LexError::InvalidBytes { bytes, index })) && bytes
                    == e0,
            },
            r matches Some(Ok((g, loc))) ==> {
                &&& g@.len() > 0
                &&& old(self).upcoming() == as_scalars(g@) + final(self).upcoming()
                &&& cluster_ok(g@, final(self).upcoming())
                &&& final(self).count_spec() == old(self).count_spec() + 1
                &&& loc.index == old(self).count_spec()
                &&& loc.index == final(self).current_index_spec()
                &&& final(self).lines_spec() == old(self).lines_after(g@)
                &&& final(self).after_break_spec() == line_break(g@)
                &&& loc.line == old(self).next_line_spec()
                &&& loc.line == final(self).current_line_spec()
                &&& loc.column == old(self).next_column_spec()
                &&& loc.column == final(self).column_spec()
                &&& loc.byte_range.start <= loc.byte_range.end
                &&& final(self).last_byte_spec() == loc.byte_range.end
                &&& loc.byte_range.start == old(self).next_byte()
                &&& loc.byte_range.end + 1 == final(self).next_byte()
                &&& loc.byte_range.end + 1 - loc.byte_range.start == utf8_size(g@)
            },
            !(r matches Some(Ok(_))) ==> final(self).next_byte() == old(self).next_byte(),
    {
        self.peek_index = 0;
        let ghost before = *self;
        let item = if self.queue.len() > 0 {
            let x = self.queue.pop_front();
            proof {
                let q = before.queue@;
                assert(q.drop_first() =~= self.queue@);
                assert(queue_units(q) == item_units(q[0]) + queue_units(q.drop_first()));
                assert(before.upcoming() =~= item_units(q[0]) + self.upcoming());
                assert(queue_item_ok(q, 0, self.iter.remaining()));
                assert(q.subrange(1, q.len() as int) =~= self.queue@);
                assert forall|i: int|
                    0 <= i < self.queue@.len() implies #[trigger] queue_item_ok(
                        self.queue@,
                        i,
                        self.iter.remaining(),
                    ) by {
                    assert(queue_item_ok(q, i + 1, self.iter.remaining()));
                    lemma_pop_keeps_item(q, i, self.iter.remaining());
                }
                assert forall|i: int|
                    0 <= i < self.queue@.len() implies #[trigger] item_bytes_ok(
                        self.queue@,
                        i,
                        self.iter.next_byte(),
                    ) by {
                    assert(item_bytes_ok(q, i + 1, self.iter.next_byte()));
                    assert(self.queue@.subrange(i + 1, self.queue@.len() as int) =~= q.subrange(
                        i + 2,
                        q.len() as int,
                    ));
                    assert(self.queue@[i] == q[i + 1]);
                }
                assert(item_bytes_ok(q, 0, self.iter.next_byte()));
            }
            x
        } else {
            proof {
                assert(queue_units(self.queue@) == Seq::<DecodedUnit>::empty());
                assert(before.upcoming() =~= self.iter.remaining());
            }
            let x = self.iter.next();
            proof {
                assert(queue_units(self.queue@) == Seq::<DecodedUnit>::empty());
                assert(self.upcoming() =~= self.iter.remaining());
                if x is Some {
                    assert(before.upcoming() =~= item_units(x->Some_0) + self.upcoming());
                }
            }
            x
        };
        match item {
            Some(Ok((g, range))) => {
                let new_line = self.count > 0 && self.after_break;
                self.count = self.count + 1;
                if new_line {
                    self.lines.push(String::new());
                    self.column = 0;
                } else if self.count != 1 {
                    self.column = self.column + 1;
                }
                let ghost base = lines_view(self.lines@);
                proof {
                    if new_line {
                        assert(base =~= lines_view(before.lines@).push(Seq::empty()));
                    }
                }
                if is_line_break(&g) {
                    self.after_break = true;
                } else {
                    self.after_break = false;
                    let mut last = self.lines.pop().unwrap();
                    last.append(g.as_str());
                    self.lines.push(last);
                    proof {
                        assert(lines_view(self.lines@) =~= base.drop_last().push(base.last() + g@));
                    }
                }
                self.last_byte_index = range.end;
                let location = GraphemeLocation {
                    index: self.count - 1,
                    byte_range: range,
                    line: self.lines.len() - 1,
                    column: self.column,
                };
                Some(Ok((g, location)))
            },
            Some(Err(e)) => Some(Err(LexError::InvalidBytes { bytes: e, index: self.count })),
            None => None,
        }
    }

    /// Starts looking ahead from the next grapheme again.
    pub fn reset_peek(&mut self)
        requires
            old(self).wf(),
        ensures
            final(self).wf(),
            final(self).peek_depth() == 0,
            final(self).upcoming() == old(self).upcoming(),
            final(self).count_spec() == old(self).count_spec(),
            final(self).column_spec() == old(self).column_spec(),
            final(self).after_break_spec() == old(self).after_break_spec(),
            final(self).lines_spec() == old(self).lines_spec(),
            final(self).last_byte_spec() == old(self).last_byte_spec(),
            final(self).next_byte() == old(self).next_byte(),
            final(self).clusters() == old(self).clusters(),
            final(self).lookahead_len() == old(self).lookahead_len(),
            forall|i: int| #[trigger] final(self).looked_ahead(i) == old(self).looked_ahead(i),
    {
        self.peek_index = 0;
    }
}

} // verus!
