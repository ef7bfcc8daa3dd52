//! Incremental acquisition of the request head: bytes arrive in chunks, the
//! reader keeps them all, and once the header terminator is in the buffer
//! the request line's path is extracted.

use vstd::prelude::*;
use vstd::slice::slice_subrange;
use vstd::slice::slice_to_vec;

verus! {

/// The capacity that a fresh reader starts with.
pub const INITIAL_CAPACITY: usize = 8192;

/// How many header slots the request parser is given.
pub const MAX_HEADERS: usize = 64;

/// Whether the four bytes of `data` starting at `i` are `\r\n\r\n`.
pub open spec fn terminator_at(data: Seq<u8>, i: int) -> bool {
    &&& 0 <= i
    &&& i + 4 <= data.len()
    &&& data[i] == 13u8
    &&& data[i + 1] == 10u8
    &&& data[i + 2] == 13u8
    &&& data[i + 3] == 10u8
}

/// Whether `i` is where the first header terminator of `data` starts.
pub open spec fn is_first_terminator(data: Seq<u8>, i: int) -> bool {
    &&& terminator_at(data, i)
    &&& forall|j: int| 0 <= j < i ==> !terminator_at(data, j)
}

/// The index just past the first header terminator of `data`, if it has one.
pub open spec fn header_end(data: Seq<u8>) -> Option<int> {
    if exists|i: int| is_first_terminator(data, i) {
        Some((choose|i: int| is_first_terminator(data, i)) + 4)
    } else {
        None
    }
}

/// The first terminator is the only index that `is_first_terminator` admits.
pub proof fn lemma_header_end_unique(data: Seq<u8>, i: int)
    requires
        is_first_terminator(data, i),
    ensures
        header_end(data) == Some(i + 4),
{
    let f = choose|k: int| is_first_terminator(data, k);
    assert(is_first_terminator(data, f));
    if f < i {
        assert(!terminator_at(data, f));
    }
    if i < f {
        assert(!terminator_at(data, i));
    }
}

/// Bytes that arrive after the header terminator do not move it: once a
/// buffer holds the terminator, the end of its header section and the bytes
/// of the head stay the same however much is appended.
pub proof fn lemma_header_end_stable(data: Seq<u8>, more: Seq<u8>)
    requires
        header_end(data) is Some,
    ensures
        header_end(data + more) == header_end(data),
        (data + more).take(header_end(data)->0) == data.take(header_end(data)->0),
{
    let f = choose|k: int| is_first_terminator(data, k);
    assert(is_first_terminator(data, f));
    let all = data + more;
    assert(terminator_at(all, f));
    assert forall|j: int| 0 <= j < f implies !terminator_at(all, j) by {
        if terminator_at(all, j) {
            assert(terminator_at(data, j));
        }
    }
    lemma_header_end_unique(all, f);
    assert(all.take(f + 4) =~= data.take(f + 4));
}

/// A buffer without a header terminator has no end of headers, and every
/// shorter buffer that it extends has none either.
pub proof fn lemma_header_end_none_prefix(data: Seq<u8>, more: Seq<u8>)
    requires
        header_end(data + more) is None,
    ensures
        header_end(data) is None,
{
    if header_end(data) is Some {
        lemma_header_end_stable(data, more);
    }
}

/// Finds the end of the header section: the index just past the first
/// `\r\n\r\n` in `data`.
pub fn find_header_end(data: &[u8]) -> (end: Option<usize>)
    ensures
        match end {
            Some(e) => header_end(data@) == Some(e as int),
            None => header_end(data@) is None,
        },
{
    let n: usize = data.len();
    if n < 4 {
        return None;
    }
    let mut i: usize = 0;
    while i < n - 3
        invariant
            n == data@.len(),
            n >= 4,
            i <= n - 3,
            forall|j: int| 0 <= j < i ==> !terminator_at(data@, j),
        decreases n - i,
    {
        if data[i] == 13 && data[i + 1] == 10 && data[i + 2] == 13 && data[i + 3] == 10 {
            proof {
                lemma_header_end_unique(data@, i as int);
            }
            return Some(i + 4);
        }
        i += 1;
    }
    None
}

/// Why header acquisition failed.
#[derive(Clone, Copy, Debug, PartialEq, Eq, Structural)]
pub enum ReadError {
    /// The stream ended before the header terminator arrived.
    ConnectionClosedEarly,
    /// The head is not a well-formed HTTP/1.x request.
    MalformedRequest,
}

/// What the request parser made of a head that it accepted.
#[derive(Clone, Debug)]
pub enum HeadStatus {
    /// The head is complete; the path of its request line, where it has one.
    Complete(Option<String>),
    /// The parser wants more bytes.
    Partial,
}

/// The parser's verdict on a head, as contracts see it.
pub enum HeadOutcome {
    Complete(Option<Seq<char>>),
    Partial,
    Invalid,
}

/// What the reader asks of its caller after a chunk.
#[derive(Clone, Debug)]
pub enum ReadStep {
    /// The head is not complete: read again.
    NeedMore,
    /// The head is complete: the path, and every byte received so far.
    Done { path: String, raw: Vec<u8> },
    /// Acquisition failed: close the connection.
    Failed(ReadError),
}

/// A `ReadStep` as contracts see it.
pub enum ReadStepView {
    NeedMore,
    Done { path: Seq<char>, raw: Seq<u8> },
    Failed(ReadError),
}

impl View for ReadStep {
    type V = ReadStepView;

    open spec fn view(&self) -> ReadStepView {
        match self {
            ReadStep::NeedMore => ReadStepView::NeedMore,
            ReadStep::Done { path, raw } => ReadStepView::Done { path: path@, raw: raw@ },
            ReadStep::Failed(e) => ReadStepView::Failed(*e),
        }
    }
}

/// The request parser's error, carried through as it came.
#[verifier::external_type_specification]
#[verifier::external_body]
pub struct ExParseError(httparse::Error);

/// The verdict of the HTTP/1.x request parser on the head `head`.
pub uninterp spec fn parsed_head(head: Seq<u8>) -> HeadOutcome;

/// The verdict that a parser result stands for.
pub open spec fn outcome_of(parsed: Result<HeadStatus, httparse::Error>) -> HeadOutcome {
    match parsed {
        Ok(HeadStatus::Complete(Some(path))) => HeadOutcome::Complete(Some(path@)),
        Ok(HeadStatus::Complete(None)) => HeadOutcome::Complete(None),
        Ok(HeadStatus::Partial) => HeadOutcome::Partial,
        Err(_) => HeadOutcome::Invalid,
    }
}

/// The step that follows the parser's verdict on the head of `data`: a
/// complete head ends acquisition with its path (`/` where the request line
/// has none) and all of `data`; a partial one asks for more; an invalid one
/// fails.
pub open spec fn step_after(outcome: HeadOutcome, data: Seq<u8>) -> ReadStepView {
    match outcome {
        HeadOutcome::Complete(Some(path)) => ReadStepView::Done { path, raw: data },
        HeadOutcome::Complete(None) => ReadStepView::Done { path: seq!['/'], raw: data },
        HeadOutcome::Partial => ReadStepView::NeedMore,
        HeadOutcome::Invalid => ReadStepView::Failed(ReadError::MalformedRequest),
    }
}

/// The step that the bytes received so far call for: more bytes while the
/// header terminator is missing, else what the parser's verdict on the head
/// (the bytes up to and including the terminator) leads to.
pub open spec fn read_step(data: Seq<u8>) -> ReadStepView {
    match header_end(data) {
        None => ReadStepView::NeedMore,
        Some(e) => step_after(parsed_head(data.take(e)), data),
    }
}

/// The bytes of `chunks`, one chunk after the other.
pub open spec fn joined(chunks: Seq<Seq<u8>>) -> Seq<u8>
    decreases chunks.len(),
{
    if chunks.len() == 0 {
        Seq::empty()
    } else {
        chunks[0] + joined(chunks.drop_first())
    }
}

/// The step that a reader holding `held` reaches when `chunks` are fed to
/// it in order, up to the first step that does not ask for more.
pub open spec fn fed(held: Seq<u8>, chunks: Seq<Seq<u8>>) -> ReadStepView
    decreases chunks.len(),
{
    if chunks.len() == 0 {
        ReadStepView::NeedMore
    } else if chunks[0].len() == 0 {
        ReadStepView::Failed(ReadError::ConnectionClosedEarly)
    } else {
        match read_step(held + chunks[0]) {
            ReadStepView::NeedMore => fed(held + chunks[0], chunks.drop_first()),
            step => step,
        }
    }
}

/// A request that arrives in pieces is read as if it had arrived at once:
/// where the header terminator is complete only with the last of the
/// chunks, feeding them in order ends in the step that all the bytes
/// together call for, with the same path and the same bytes.
pub proof fn lemma_split_reads(held: Seq<u8>, chunks: Seq<Seq<u8>>)
    requires
        chunks.len() > 0,
        forall|i: int| 0 <= i < chunks.len() ==> (#[trigger] chunks[i]).len() > 0,
        header_end(held + joined(chunks.drop_last())) is None,
    ensures
        fed(held, chunks) == read_step(held + joined(chunks)),
    decreases chunks.len(),
{
    let first = chunks[0];
    let rest = chunks.drop_first();
    if chunks.len() == 1 {
        assert(joined(rest) =~= Seq::<u8>::empty());
        assert(held + joined(chunks) =~= held + first);
    } else {
        let before = chunks.drop_last();
        assert(before[0] == first);
        assert(before.drop_first() =~= rest.drop_last());
        assert(held + joined(before) =~= (held + first) + joined(rest.drop_last()));
        lemma_header_end_none_prefix(held + first, joined(rest.drop_last()));
        assert forall|i: int| 0 <= i < rest.len() implies (#[trigger] rest[i]).len() > 0 by {
            assert(rest[i] == chunks[i + 1]);
        }
        lemma_split_reads(held + first, rest);
        assert((held + first) + joined(rest) =~= held + joined(chunks));
    }
}

/// The capacity after a step that asks for more bytes: doubled once the
/// buffer is full, held at the machine's limit.
pub open spec fn grown(capacity: nat, len: nat) -> nat {
    if len < capacity {
        capacity
    } else if 2 * capacity <= usize::MAX {
        2 * capacity
    } else {
        usize::MAX as nat
    }
}

/// Runs `httparse::Request::parse` on `head` with `MAX_HEADERS` header
/// slots. Trusted: the verdict is taken to be a function of the bytes alone,
/// named `parsed_head`; the path is the one the parser reports, copied.
#[verifier::external_body]
fn parse_head(head: &[u8]) -> (parsed: Result<HeadStatus, httparse::Error>)
    ensures
        outcome_of(parsed) == parsed_head(head@),
{
    let mut headers = [httparse::EMPTY_HEADER; MAX_HEADERS];
    let mut request = httparse::Request::new(&mut headers);
    match request.parse(head) {
        Ok(httparse::Status::Complete(_)) => Ok(
            HeadStatus::Complete(request.path.map(|p| p.to_string())),
        ),
        Ok(httparse::Status::Partial) => Ok(HeadStatus::Partial),
        Err(e) => Err(e),
    }
}

/// Turns the parser's result on the head of `raw` into the reader's step.
pub fn step_after_parse(parsed: Result<HeadStatus, httparse::Error>, raw: &[u8]) -> (step: ReadStep)
    ensures
        step@ == step_after(outcome_of(parsed), raw@),
{
    match parsed {
        Ok(HeadStatus::Complete(Some(path))) => ReadStep::Done { path, raw: slice_to_vec(raw) },
        Ok(HeadStatus::Complete(None)) => {
            proof {
                reveal_strlit("/");
            }
            let path = String::from_str("/");
            assert(path@ =~= seq!['/']);
            ReadStep::Done { path, raw: slice_to_vec(raw) }
        },
        Ok(HeadStatus::Partial) => ReadStep::NeedMore,
        Err(_) => ReadStep::Failed(ReadError::MalformedRequest),
    }
}

/// The step that the bytes `data`, all that was received so far, call for.
pub fn next_step(data: &[u8]) -> (step: ReadStep)
    ensures
        step@ == read_step(data@),
{
    match find_header_end(data) {
        None => ReadStep::NeedMore,
        Some(end) => {
            let parsed = parse_head(slice_subrange(data, 0, end));
            step_after_parse(parsed, data)
        },
    }
}

/// The buffer of one connection's header acquisition.
#[derive(Clone, Debug)]
pub struct HeaderReader {
    buffer: Vec<u8>,
    capacity: usize,
}

impl HeaderReader {
    /// The bytes received so far.
    pub closed spec fn data(&self) -> Seq<u8> {
        self.buffer@
    }

    /// The buffer's capacity.
    pub closed spec fn capacity(&self) -> nat {
        self.capacity as nat
    }

    /// The bytes fit the capacity, which never falls under the initial one.
    pub open spec fn wf(&self) -> bool {
        &&& self.data().len() <= self.capacity()
        &&& self.capacity() >= INITIAL_CAPACITY
        &&& self.capacity() <= usize::MAX
    }

    /// An empty reader with the initial capacity.
    pub fn new() -> (reader: HeaderReader)
        ensures
            reader.wf(),
            reader.data() == Seq::<u8>::empty(),
            reader.capacity() == INITIAL_CAPACITY,
    {
        HeaderReader { buffer: Vec::new(), capacity: INITIAL_CAPACITY }
    }

    /// How many bytes the next read may bring at most.
    pub fn room(&self) -> (n: usize)
        requires
            self.wf(),
        ensures
            n == self.capacity() - self.data().len(),
    {
        self.capacity - self.buffer.len()
    }

    /// How many bytes were received so far.
    pub fn len(&self) -> (n: usize)
        ensures
            n == self.data().len(),
    {
        self.buffer.len()
    }

    /// Takes in what one read brought. An empty chunk is the end of the
    /// stream and fails acquisition; any other is appended, and the step is
    /// the one that the accumulated bytes call for. The capacity grows when
    /// more bytes are needed and the buffer is full.
    pub fn feed(&mut self, chunk: &[u8]) -> (step: ReadStep)
        requires
            old(self).wf(),
            chunk@.len() <= old(self).capacity() - old(self).data().len(),
        ensures
            final(self).wf(),
            chunk@.len() == 0 ==> {
                &&& step@ == ReadStepView::Failed(ReadError::ConnectionClosedEarly)
                &&& final(self).data() == old(self).data()
                &&& final(self).capacity() == old(self).capacity()
            },
            chunk@.len() > 0 ==> {
                &&& final(self).data() == old(self).data() + chunk@
                &&& step@ == read_step(final(self).data())
                &&& final(self).capacity() == if step@ is NeedMore {
                    grown(old(self).capacity(), final(self).data().len())
                } else {
                    old(self).capacity()
                }
            },
    {
        if chunk.len() == 0 {
            return ReadStep::Failed(ReadError::ConnectionClosedEarly);
        }
        self.buffer.extend_from_slice(chunk);
        assert(self.buffer@ =~= old(self).buffer@ + chunk@);
        let step = next_step(self.buffer.as_slice());
        if let ReadStep::NeedMore = step {
            if self.buffer.len() >= self.capacity {
                if self.capacity <= usize::MAX / 2 {
                    self.capacity = self.capacity * 2;
                } else {
                    self.capacity = usize::MAX;
                }
            }
        }
        step
    }
}

} // verus!
