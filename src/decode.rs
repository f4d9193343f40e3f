use character_stream::{CharStream, CharacterError, CharacterStream};
use vstd::prelude::*;

verus! {

/// An inclusive range of positions, `start..=end`.
#[derive(Debug, Clone, Copy, PartialEq, Eq)]
pub struct InclusiveRange {
    pub start: usize,
    pub end: usize,
}

impl InclusiveRange {
    /// The range `start..=end`.
    pub fn new(start: usize, end: usize) -> (r: InclusiveRange)
        ensures
            r.start == start,
            r.end == end,
    {
        InclusiveRange { start, end }
    }
}

/// What reading one scalar value from the front of `bytes` gives: the scalar, or
/// the bytes of an invalid sequence (`Err(Some(..))`), or nothing when the input
/// is exhausted (`Err(None)`); and how many bytes the read consumed.
pub uninterp spec fn read_char_of(bytes: Seq<u8>) -> (Result<char, Option<Seq<u8>>>, nat);

/// The outcome of a read, with the bytes of an invalid sequence seen as a sequence.
pub open spec fn read_view(r: Result<char, Option<Vec<u8>>>) -> Result<char, Option<Seq<u8>>> {
    match r {
        Ok(c) => Ok(c),
        Err(None) => Err(None),
        Err(Some(b)) => Err(Some(b@)),
    }
}

/// A read that gives the scalar value `c`.
pub open spec fn scalar_read(c: char) -> Result<char, Option<Seq<u8>>> {
    Ok(c)
}

/// Whether `bytes` starts with the UTF-8 encoding of `c`.
pub open spec fn starts_with_char(bytes: Seq<u8>, c: char) -> bool {
    bytes.len() >= utf8_len(c) && bytes.subrange(0, utf8_len(c) as int) == utf8_of(c)
}

/// The scalar value whose UTF-8 encoding `bytes` starts with, if there is one.
pub open spec fn valid_front(bytes: Seq<u8>) -> Option<char> {
    if exists|c: char| starts_with_char(bytes, c) {
        Some(choose|c: char| starts_with_char(bytes, c))
    } else {
        None
    }
}

/// Reads one scalar value from `bytes[from..]`.
///
/// Relies on `character_stream::CharacterStream::read_char` over an in-memory reader,
/// created non-lossy so that invalid sequences come back with their bytes. An
/// empty input gives `NoBytesRead`; a non-empty one consumes at least its first
/// byte; the bytes of an error are among those consumed. It reads the lead
/// byte and the bytes that the lead announces, and gives a scalar value
/// exactly when those bytes are its UTF-8 encoding.
#[verifier::external_body]
fn read_char(bytes: &Vec<u8>, from: usize) -> (r: (Result<char, Option<Vec<u8>>>, usize))
    requires
        from <= bytes@.len(),
    ensures
        r.1 == read_char_of(bytes@.subrange(from as int, bytes@.len() as int)).1,
        read_view(r.0) == read_char_of(bytes@.subrange(from as int, bytes@.len() as int)).0,
        from == bytes@.len() ==> r.0 matches Err(None),
        from < bytes@.len() ==> 1 <= r.1 <= bytes@.len() - from,
        r.0 matches Err(Some(b)) ==> b@.len() <= r.1,
        r.0 matches Ok(c) ==> r.1 == utf8_len(c) && bytes@.subrange(from as int, from + r.1)
            == utf8_of(c),
        forall|c: char|
            #[trigger] starts_with_char(bytes@.subrange(from as int, bytes@.len() as int), c)
                ==> read_view(r.0) == scalar_read(c) && r.1 == utf8_len(c),
{
    let mut cursor = std::io::Cursor::new(&bytes[from..]);
    let result = CharacterStream::new(&mut cursor, false).read_char();
    let consumed = cursor.position() as usize;
    match result {
        Ok(c) => (Ok(c), consumed),
        Err(CharacterError::NoBytesRead) => (Err(None), consumed),
        Err(CharacterError::IoError { bytes, error: _ }) => (Err(Some(bytes)), consumed),
        Err(CharacterError::Other { bytes, error: _ }) => (Err(Some(bytes)), consumed),
    }
}

/// One step of decoding: a scalar value, or the bytes of an invalid sequence.
pub type DecodedUnit = Result<char, Seq<u8>>;

/// The unit of a decoded scalar value.
pub open spec fn scalar(c: char) -> DecodedUnit {
    Ok(c)
}

/// The unit of an invalid sequence.
pub open spec fn invalid(b: Seq<u8>) -> DecodedUnit {
    Err(b)
}

/// Whether a read consumed some of `bytes` (a read of a non-empty input
/// always does).
pub open spec fn read_moves(bytes: Seq<u8>) -> bool {
    1 <= read_char_of(bytes).1 <= bytes.len()
}

/// The length of the run of bytes at the front of `bytes` that reads find
/// invalid, read after read, up to the next scalar value or the end.
pub open spec fn invalid_run(bytes: Seq<u8>) -> nat
    decreases bytes.len(),
{
    if read_moves(bytes) && read_char_of(bytes).0 is Err {
        let n = read_char_of(bytes).1;
        n + invalid_run(bytes.subrange(n as int, bytes.len() as int))
    } else {
        0
    }
}

/// The units that decoding `bytes` from the front yields: each scalar value,
/// and each maximal run of invalid bytes as one unit holding the bytes of the
/// run.
pub open spec fn units_of(bytes: Seq<u8>) -> Seq<DecodedUnit>
    decreases bytes.len(),
{
    if !read_moves(bytes) {
        Seq::empty()
    } else {
        let (r, n) = read_char_of(bytes);
        match r {
            Ok(c) => seq![scalar(c)] + units_of(bytes.subrange(n as int, bytes.len() as int)),
            Err(_) => {
                let k = invalid_run(bytes);
                if 0 < k <= bytes.len() {
                    seq![invalid(bytes.subrange(0, k as int))] + units_of(
                        bytes.subrange(k as int, bytes.len() as int),
                    )
                } else {
                    Seq::empty()
                }
            },
        }
    }
}

/// An invalid run lies within the bytes, and is not empty when the first read
/// finds bytes invalid.
pub proof fn lemma_invalid_run_bounds(bytes: Seq<u8>)
    ensures
        invalid_run(bytes) <= bytes.len(),
        read_moves(bytes) && read_char_of(bytes).0 is Err ==> invalid_run(bytes) >= 1,
    decreases bytes.len(),
{
    if read_moves(bytes) && read_char_of(bytes).0 is Err {
        let n = read_char_of(bytes).1;
        lemma_invalid_run_bounds(bytes.subrange(n as int, bytes.len() as int));
    }
}

/// One step of `units_of` on a read that consumes bytes and gives `c`.
proof fn lemma_units_scalar(bytes: Seq<u8>, c: char)
    requires
        1 <= read_char_of(bytes).1 <= bytes.len(),
        read_char_of(bytes).0 == Ok::<char, Option<Seq<u8>>>(c),
    ensures
        units_of(bytes).len() > 0,
        units_of(bytes)[0] == scalar(c),
        units_of(bytes).drop_first() == units_of(
            bytes.subrange(read_char_of(bytes).1 as int, bytes.len() as int),
        ),
{
    let rest = units_of(bytes.subrange(read_char_of(bytes).1 as int, bytes.len() as int));
    assert((seq![scalar(c)] + rest).drop_first() =~= rest);
}

/// One step of `units_of` on a read that consumes bytes and finds them
/// invalid: the run of `k` invalid bytes is one unit.
proof fn lemma_units_invalid(bytes: Seq<u8>, k: nat)
    requires
        read_moves(bytes),
        read_char_of(bytes).0 is Err,
        k == invalid_run(bytes),
    ensures
        0 < k <= bytes.len(),
        units_of(bytes).len() > 0,
        units_of(bytes)[0] == invalid(bytes.subrange(0, k as int)),
        units_of(bytes).drop_first() == units_of(bytes.subrange(k as int, bytes.len() as int)),
{
    lemma_invalid_run_bounds(bytes);
    let rest = units_of(bytes.subrange(k as int, bytes.len() as int));
    assert((seq![invalid(bytes.subrange(0, k as int))] + rest).drop_first() =~= rest);
}

/// Each unit consumes at least one byte.
pub proof fn lemma_units_len(bytes: Seq<u8>)
    ensures
        units_of(bytes).len() <= bytes.len(),
    decreases bytes.len(),
{
    if read_moves(bytes) {
        let (r, n) = read_char_of(bytes);
        match r {
            Ok(_) => lemma_units_len(bytes.subrange(n as int, bytes.len() as int)),
            Err(_) => {
                lemma_invalid_run_bounds(bytes);
                let k = invalid_run(bytes);
                lemma_units_len(bytes.subrange(k as int, bytes.len() as int));
            },
        }
    }
}

/// The replacement character that stands for an invalid sequence in lossy mode.
pub const REPLACEMENT: char = '\u{FFFD}';

/// The UTF-8 encoding of a scalar value.
pub open spec fn utf8_of(c: char) -> Seq<u8> {
    let v = c as u32;
    if v < 0x80 {
        seq![v as u8]
    } else if v < 0x800 {
        seq![(0xC0 + v / 64) as u8, (0x80 + v % 64) as u8]
    } else if v < 0x10000 {
        seq![(0xE0 + v / 4096) as u8, (0x80 + (v / 64) % 64) as u8, (0x80 + v % 64) as u8]
    } else {
        seq![
            (0xF0 + v / 262144) as u8,
            (0x80 + (v / 4096) % 64) as u8,
            (0x80 + (v / 64) % 64) as u8,
            (0x80 + v % 64) as u8,
        ]
    }
}

/// Encodes `c` as UTF-8.
pub fn encode_utf8(c: char) -> (r: Vec<u8>)
    ensures
        r@ == utf8_of(c),
        1 <= r@.len() <= 4,
{
    let v = c as u32;
    if v < 0x80 {
        vec![v as u8]
    } else if v < 0x800 {
        vec![(0xC0 + v / 64) as u8, (0x80 + v % 64) as u8]
    } else if v < 0x10000 {
        vec![(0xE0 + v / 4096) as u8, (0x80 + (v / 64) % 64) as u8, (0x80 + v % 64) as u8]
    } else {
        vec![
            (0xF0 + v / 262144) as u8,
            (0x80 + (v / 4096) % 64) as u8,
            (0x80 + (v / 64) % 64) as u8,
            (0x80 + v % 64) as u8,
        ]
    }
}

/// Collects the bytes of decoded text, or in void mode only counts them.
#[derive(Debug)]
pub struct Blackhole {
    stored: Vec<u8>,
    void: bool,
    count: usize,
}

impl Blackhole {
    /// The number of bytes collected so far.
    pub closed spec fn len_spec(&self) -> nat {
        if self.void {
            self.count as nat
        } else {
            self.stored@.len()
        }
    }

    /// The bytes kept; always empty in void mode.
    pub closed spec fn bytes_spec(&self) -> Seq<u8> {
        self.stored@
    }

    pub closed spec fn is_void(&self) -> bool {
        self.void
    }

    pub closed spec fn wf(&self) -> bool {
        self.void ==> self.stored@.len() == 0
    }

    /// An empty collector; with `void` set it keeps no bytes and only counts.
    pub fn new(void: bool) -> (r: Blackhole)
        ensures
            r.wf(),
            r.len_spec() == 0,
            r.bytes_spec() == Seq::<u8>::empty(),
            r.is_void() == void,
    {
        Blackhole { stored: Vec::new(), void, count: 0 }
    }

    /// The number of bytes collected so far.
    pub fn len(&self) -> (r: usize)
        requires
            self.wf(),
        ensures
            r == self.len_spec(),
    {
        if self.void {
            self.count
        } else {
            self.stored.len()
        }
    }

    /// The bytes kept.
    pub fn bytes(&self) -> (r: &[u8])
        ensures
            r@ == self.bytes_spec(),
    {
        self.stored.as_slice()
    }

    /// Adds `items` at the end, or only counts them in void mode.
    pub fn extend(&mut self, items: &[u8])
        requires
            old(self).wf(),
            old(self).len_spec() + items@.len() <= usize::MAX,
        ensures
            final(self).wf(),
            final(self).is_void() == old(self).is_void(),
            final(self).len_spec() == old(self).len_spec() + items@.len(),
            final(self).bytes_spec() == if old(self).is_void() {
                old(self).bytes_spec()
            } else {
                old(self).bytes_spec() + items@
            },
    {
        if self.void {
            self.count = self.count + items.len();
        } else {
            let mut i: usize = 0;
            while i < items.len()
                invariant
                    !self.void,
                    i <= items@.len(),
                    self.stored@ == old(self).stored@ + items@.subrange(0, i as int),
                decreases items@.len() - i,
            {
                self.stored.push(items[i]);
                i = i + 1;
                assert(self.stored@ =~= old(self).stored@ + items@.subrange(0, i as int));
            }
            assert(items@.subrange(0, items@.len() as int) =~= items@);
        }
    }
}

/// A decoded scalar value with the inclusive range of bytes its text takes in
/// the collected output, or the bytes of an invalid sequence.
pub type CharsResult = Result<(char, InclusiveRange), Vec<u8>>;

/// Decodes bytes into scalar values, counting valid and invalid bytes.
///
/// In lossy mode each invalid sequence becomes one replacement character;
/// otherwise it is reported with its bytes.
pub struct Chars {
    input: Vec<u8>,
    pos: usize,
    finished: bool,
    is_lossy: bool,
    failed_count: usize,
    success_count: usize,
    accumulator: Blackhole,
    units: Ghost<Seq<DecodedUnit>>,
}

/// The number of input bytes in the invalid sequences among `units`.
pub open spec fn invalid_total(units: Seq<DecodedUnit>) -> nat
    decreases units.len(),
{
    if units.len() == 0 {
        0
    } else {
        invalid_total(units.drop_last()) + match units.last() {
            Err(b) => b.len(),
            Ok(_) => 0,
        }
    }
}

/// The number of input bytes of the scalar values among `units`.
pub open spec fn valid_total(units: Seq<DecodedUnit>) -> nat
    decreases units.len(),
{
    if units.len() == 0 {
        0
    } else {
        valid_total(units.drop_last()) + match units.last() {
            Ok(c) => utf8_len(c),
            Err(_) => 0,
        }
    }
}

/// Reading one more unit adds its bytes to the matching total.
proof fn lemma_step_totals(units: Seq<DecodedUnit>, k: int)
    requires
        1 <= k <= units.len(),
    ensures
        invalid_total(units.subrange(0, units.len() - k + 1)) == invalid_total(
            units.subrange(0, units.len() - k),
        ) + match units[units.len() - k] {
            Err(b) => b.len(),
            Ok(_) => 0,
        },
        valid_total(units.subrange(0, units.len() - k + 1)) == valid_total(
            units.subrange(0, units.len() - k),
        ) + match units[units.len() - k] {
            Ok(c) => utf8_len(c),
            Err(_) => 0,
        },
        units.subrange(units.len() - k, units.len() as int).drop_first() == units.subrange(
            units.len() - k + 1,
            units.len() as int,
        ),
{
    let l = units.len() as int;
    assert(units.subrange(0, l - k + 1).drop_last() =~= units.subrange(0, l - k));
    assert(units.subrange(l - k, l).drop_first() =~= units.subrange(l - k + 1, l));
}

/// The number of bytes of the UTF-8 encoding of `c`.
pub open spec fn utf8_len(c: char) -> nat {
    utf8_of(c).len()
}

impl Chars {
    /// The units that are still to come.
    pub closed spec fn pending(&self) -> Seq<DecodedUnit> {
        if self.finished {
            Seq::empty()
        } else {
            units_of(self.input@.subrange(self.pos as int, self.input@.len() as int))
        }
    }

    /// The input bytes not read yet.
    pub closed spec fn rest_bytes(&self) -> Seq<u8> {
        if self.finished {
            Seq::empty()
        } else {
            self.input@.subrange(self.pos as int, self.input@.len() as int)
        }
    }

    /// All units of the input, read or not.
    pub closed spec fn all_units(&self) -> Seq<DecodedUnit> {
        self.units@
    }

    /// The units read so far.
    pub closed spec fn consumed_units(&self) -> Seq<DecodedUnit> {
        self.units@.subrange(0, self.units@.len() - self.pending().len())
    }

    pub closed spec fn lossy(&self) -> bool {
        self.is_lossy
    }

    pub closed spec fn valid_count(&self) -> nat {
        self.success_count as nat
    }

    pub closed spec fn invalid_count(&self) -> nat {
        self.failed_count as nat
    }

    pub closed spec fn collected(&self) -> Blackhole {
        self.accumulator
    }

    pub closed spec fn wf(&self) -> bool {
        &&& self.pos <= self.input@.len()
        &&& self.input@.len() <= usize::MAX / 8
        &&& self.accumulator.wf()
        &&& self.success_count + self.failed_count <= 4 * self.pos
        &&& self.accumulator.len_spec() <= 4 * self.pos
        &&& self.pending().len() <= self.units@.len()
        &&& self.pending() == self.units@.subrange(
            self.units@.len() - self.pending().len(),
            self.units@.len() as int,
        )
        &&& self.failed_count == invalid_total(self.consumed_units())
        &&& self.success_count == valid_total(self.consumed_units())
    }

    /// The counters agree with the units read: the invalid count is the
    /// number of bytes in the invalid sequences read, the valid count that of
    /// the scalar values read; and the units read, then those to come, are
    /// all the units of the input.
    pub proof fn lemma_counts(&self)
        requires
            self.wf(),
        ensures
            self.invalid_count() == invalid_total(self.consumed_units()),
            self.valid_count() == valid_total(self.consumed_units()),
            self.consumed_units() + self.pending() == self.all_units(),
    {
        assert(self.consumed_units() + self.pending() =~= self.all_units());
    }

    /// A decoder over `incoming`; `void` keeps the collected text from being stored.
    pub fn new(incoming: Vec<u8>, is_lossy: bool, void: bool) -> (r: Chars)
        requires
            incoming@.len() <= usize::MAX / 8,
        ensures
            r.wf(),
            r.pending() == units_of(incoming@),
            r.all_units() == units_of(incoming@),
            r.lossy() == is_lossy,
            r.valid_count() == 0,
            r.invalid_count() == 0,
            r.collected().len_spec() == 0,
            r.collected().bytes_spec() == Seq::<u8>::empty(),
            r.collected().is_void() == void,
    {
        let r = Chars {
            input: incoming,
            pos: 0,
            finished: false,
            is_lossy,
            failed_count: 0,
            success_count: 0,
            accumulator: Blackhole::new(void),
            units: Ghost(units_of(incoming@)),
        };
        assert(r.input@.subrange(0, r.input@.len() as int) =~= r.input@);
        assert(r.units@.subrange(0, r.units@.len() as int) =~= r.units@);
        assert(r.consumed_units() =~= Seq::<DecodedUnit>::empty());
        r
    }

    /// The bytes of the decoded text kept so far.
    pub fn bytes(&self) -> (r: &[u8])
        ensures
            r@ == self.collected().bytes_spec(),
    {
        self.accumulator.bytes()
    }

    /// The number of bytes of decoded text so far.
    pub fn byte_count(&self) -> (r: usize)
        requires
            self.wf(),
        ensures
            r == self.collected().len_spec(),
    {
        self.accumulator.len()
    }

    /// The number of input bytes that decoded to scalar values.
    pub fn valid_bytes(&self) -> (r: usize)
        requires
            self.wf(),
        ensures
            r == self.valid_count(),
            r + self.invalid_count() <= usize::MAX,
    {
        self.success_count
    }

    /// The number of input bytes that belonged to invalid sequences.
    pub fn invalid_bytes(&self) -> (r: usize)
        ensures
            r == self.invalid_count(),
    {
        self.failed_count
    }

    /// Decodes the next unit.
    pub fn next(&mut self) -> (r: Option<CharsResult>)
        requires
            old(self).wf(),
        ensures
            final(self).wf(),
            final(self).lossy() == old(self).lossy(),
            final(self).all_units() == old(self).all_units(),
            final(self).collected().is_void() == old(self).collected().is_void(),
            final(self).collected().len_spec() >= old(self).collected().len_spec(),
            r matches Some(Ok((c, range))) ==> range.start == old(self).collected().len_spec()
                && range.start <= range.end && range.end + 1 == final(self).collected().len_spec()
                && range.end + 1 - range.start == utf8_len(c),
            old(self).pending().len() == 0 ==> r is None && final(self).pending().len() == 0
                && final(self).valid_count() == old(self).valid_count()
                && final(self).invalid_count() == old(self).invalid_count()
                && final(self).collected() == old(self).collected(),
            old(self).pending().len() > 0 ==> final(self).pending() == old(self).pending().drop_first(),
            valid_front(old(self).rest_bytes()) matches Some(c) ==> old(self).pending().len() > 0
                && old(self).pending()[0] == scalar(c) && final(self).rest_bytes()
                == old(self).rest_bytes().subrange(
                utf8_len(c) as int,
                old(self).rest_bytes().len() as int,
            ),
            old(self).pending().len() > 0 ==> match old(self).pending()[0] {
                Ok(c) => step_emits(*old(self), *final(self), r, c)
                    && final(self).valid_count() == old(self).valid_count() + utf8_len(c)
                    && final(self).invalid_count() == old(self).invalid_count(),
                Err(b) => final(self).valid_count() == old(self).valid_count()
                    && final(self).invalid_count() == old(self).invalid_count() + b.len()
                    && if old(self).lossy() {
                        step_emits(*old(self), *final(self), r, REPLACEMENT)
                    } else {
                        r matches Some(Err(e)) && e@ == b
                            && final(self).collected() == old(self).collected()
                    },
            },
    {
        let ghost bytes_left = self.input@.subrange(self.pos as int, self.input@.len() as int);
        if self.finished {
            return None;
        }
        let start = self.accumulator.len();
        let (result, consumed) = read_char(&self.input, self.pos);
        if consumed == 0 || consumed > self.input.len() - self.pos {
            self.finished = true;
            return None;
        }
        let ghost rest = self.input@.subrange(self.pos + consumed, self.input@.len() as int);
        let ghost k = self.pending().len() as int;
        proof {
            if k >= 1 {
                lemma_step_totals(self.units@, k);
            }
        }
        proof {
            assert(bytes_left.subrange(consumed as int, bytes_left.len() as int) =~= rest);
        }
        match result {
            Ok(character) => {
                proof {
                    lemma_units_scalar(bytes_left, character);
                }
                self.pos = self.pos + consumed;
                let encoded = encode_utf8(character);
                self.success_count = self.success_count + encoded.len();
                self.accumulator.extend(encoded.as_slice());
                let end = self.accumulator.len() - 1;
                Some(Ok((character, InclusiveRange::new(start, end))))
            },
            Err(_) => {
                let run_start = self.pos;
                let mut run_end = self.pos + consumed;
                let ghost len = self.input@.len() as int;
                proof {
                    lemma_invalid_run_bounds(bytes_left);
                    assert(self.input@.subrange(run_end as int, len) =~= rest);
                }
                while run_end < self.input.len()
                    invariant
                        run_start == self.pos,
                        run_start < run_end <= self.input@.len(),
                        len == self.input@.len(),
                        bytes_left == self.input@.subrange(run_start as int, len),
                        invalid_run(bytes_left) == (run_end - run_start) + invalid_run(
                            self.input@.subrange(run_end as int, len),
                        ),
                    ensures
                        run_start < run_end <= self.input@.len(),
                        invalid_run(self.input@.subrange(run_end as int, len)) == 0,
                        invalid_run(bytes_left) == (run_end - run_start),
                    decreases self.input@.len() - run_end,
                {
                    let (next, n) = read_char(&self.input, run_end);
                    if n == 0 || n > self.input.len() - run_end || next.is_ok() {
                        break;
                    }
                    proof {
                        let here = self.input@.subrange(run_end as int, len);
                        assert(here.subrange(n as int, here.len() as int) =~= self.input@.subrange(
                            run_end + n,
                            len,
                        ));
                    }
                    run_end = run_end + n;
                }
                proof {
                    let tail = self.input@.subrange(run_end as int, len);
                    lemma_units_invalid(bytes_left, (run_end - run_start) as nat);
                    assert(bytes_left.subrange((run_end - run_start) as int, bytes_left.len() as int)
                        =~= tail);
                }
                let mut invalid_bytes: Vec<u8> = Vec::new();
                let mut i = run_start;
                while i < run_end
                    invariant
                        run_start <= i <= run_end <= self.input@.len(),
                        invalid_bytes@ == self.input@.subrange(run_start as int, i as int),
                    decreases run_end - i,
                {
                    invalid_bytes.push(self.input[i]);
                    i = i + 1;
                    assert(invalid_bytes@ =~= self.input@.subrange(run_start as int, i as int));
                }
                proof {
                    assert(bytes_left.subrange(0, (run_end - run_start) as int) =~= invalid_bytes@);
                }
                self.pos = run_end;
                self.failed_count = self.failed_count + (run_end - run_start);
                if self.is_lossy {
                    let encoded = encode_utf8(REPLACEMENT);
                    self.accumulator.extend(encoded.as_slice());
                    let end = self.accumulator.len() - 1;
                    Some(Ok((REPLACEMENT, InclusiveRange::new(start, end))))
                } else {
                    Some(Err(invalid_bytes))
                }
            },
        }
    }
}

/// A step of decoding that gives `c`, with its encoding added to the collected text.
pub open spec fn step_emits(before: Chars, after: Chars, r: Option<CharsResult>, c: char) -> bool {
    &&& after.collected().len_spec() == before.collected().len_spec() + utf8_len(c)
    &&& after.collected().bytes_spec() == if before.collected().is_void() {
        before.collected().bytes_spec()
    } else {
        before.collected().bytes_spec() + utf8_of(c)
    }
    &&& r == Some(
        Ok::<(char, InclusiveRange), Vec<u8>>(
            (
                c,
                InclusiveRange {
                    start: before.collected().len_spec() as usize,
                    end: (after.collected().len_spec() - 1) as usize,
                },
            ),
        ),
    )
}

} // verus!
