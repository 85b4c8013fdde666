//! The streaming hasher: feeds what was read from a byte stream to an XXH64
//! hasher, chunk by chunk, so that a whole stream never has to be in memory.

use std::hash::Hasher;
use twox_hash::XxHash64;
use vstd::prelude::*;

verus! {

/// Recommended size of the buffer that a stream is read into.
pub const CHUNK_SIZE: usize = 65536;

/// `twox_hash::XxHash64`, the incremental XXH64 hasher. Nothing inside it is
/// visible to the verifier; [`hasher_seed`] and [`hasher_input`] stand for
/// its state. The library holds it in a [`StreamHasher`].
#[verifier::external_type_specification]
#[verifier::external_body]
pub struct ExXxHash64(XxHash64);

/// The seed that a hasher was created with.
pub uninterp spec fn hasher_seed(h: XxHash64) -> u64;

/// Every byte written to a hasher since it was created, in order.
pub uninterp spec fn hasher_input(h: XxHash64) -> Seq<u8>;

/// The XXH64 digest of `input` under `seed`, as `twox_hash` computes it.
pub uninterp spec fn xxh64(seed: u64, input: Seq<u8>) -> u64;

/// Calls `XxHash64::default()`. Trusted: the new hasher has seed 0 and has
/// been given no input.
#[verifier::external_body]
fn fresh_hasher() -> (h: XxHash64)
    ensures
        hasher_seed(h) == 0,
        hasher_input(h) == Seq::<u8>::empty(),
{
    XxHash64::default()
}

/// Calls `Hasher::write` of `XxHash64`. Trusted: the bytes are appended to
/// the hasher's input and the seed stays; how the input was split into
/// writes leaves no trace. The hasher counts its input in a `u64`, so the
/// total must fit.
#[verifier::external_body]
fn hasher_write(h: &mut XxHash64, bytes: &[u8])
    requires
        hasher_input(*old(h)).len() + bytes@.len() <= u64::MAX,
    ensures
        hasher_seed(*final(h)) == hasher_seed(*old(h)),
        hasher_input(*final(h)) == hasher_input(*old(h)) + bytes@,
{
    h.write(bytes)
}

/// Calls `Hasher::finish` of `XxHash64`. Trusted: the result is the XXH64
/// digest of the hasher's input under its seed.
#[verifier::external_body]
fn hasher_finish(h: &XxHash64) -> (digest: u64)
    ensures
        digest == xxh64(hasher_seed(*h), hasher_input(*h)),
{
    h.finish()
}

/// An XXH64 hasher with seed 0 that takes its input piece by piece and
/// counts it.
pub struct StreamHasher {
    hasher: XxHash64,
    fed: u64,
}

impl StreamHasher {
    #[verifier::type_invariant]
    closed spec fn counted(self) -> bool {
        hasher_seed(self.hasher) == 0 && hasher_input(self.hasher).len() == self.fed
    }

    /// Every byte given to the hasher so far, in order.
    pub closed spec fn input(self) -> Seq<u8> {
        hasher_input(self.hasher)
    }

    /// A hasher that has been given nothing.
    pub fn new() -> (fresh: Self)
        ensures
            fresh.input() == Seq::<u8>::empty(),
    {
        StreamHasher { hasher: fresh_hasher(), fed: 0 }
    }

    /// The number of bytes given so far.
    pub fn fed(&self) -> (count: u64)
        ensures
            count == self.input().len(),
    {
        proof {
            use_type_invariant(self);
        }
        self.fed
    }

    /// Gives the hasher more input. The input is counted in 64 bits, so
    /// the total must fit.
    pub fn write(&mut self, bytes: &[u8])
        requires
            old(self).input().len() + bytes@.len() <= u64::MAX,
        ensures
            final(self).input() == old(self).input() + bytes@,
    {
        proof {
            use_type_invariant(&*self);
        }
        let mut hasher = self.hasher;
        hasher_write(&mut hasher, bytes);
        let fed: u64 = self.fed + bytes.len() as u64;
        *self = StreamHasher { hasher, fed };
    }

    /// The XXH64 digest, under seed 0, of the input so far.
    pub fn finish(&self) -> (digest: u64)
        ensures
            digest == xxh64(0, self.input()),
    {
        proof {
            use_type_invariant(self);
        }
        hasher_finish(&self.hasher)
    }
}

/// What one attempt to read from a byte stream returned.
pub enum ReadOutcome {
    /// The read delivered these bytes. No bytes at all mean the end of the
    /// stream.
    Data(Vec<u8>),
    /// The read was interrupted before it delivered anything. It is simply
    /// repeated.
    Interrupted,
    /// The read failed for any other reason.
    Failed,
}

/// A stream could not be read to its end.
#[derive(Debug, PartialEq, Eq, Structural)]
pub struct ReadError;

/// What is to happen after one read has been dealt with.
#[derive(Debug, PartialEq, Eq, Structural)]
pub enum CopyStep {
    /// Read again; this many bytes have been copied so far.
    Continue(u64),
    /// The stream has ended; this many bytes were copied in all.
    Done(u64),
    /// The stream has failed and the copy is abandoned.
    Abort,
}

impl ReadOutcome {
    /// True of the outcomes after which no further read is made: the end of
    /// the stream and a failure.
    pub open spec fn stops(self) -> bool {
        match self {
            ReadOutcome::Data(bytes) => bytes@.len() == 0,
            ReadOutcome::Interrupted => false,
            ReadOutcome::Failed => true,
        }
    }

    /// The bytes that the outcome adds to what has been copied.
    pub open spec fn payload(self) -> Seq<u8> {
        match self {
            ReadOutcome::Data(bytes) => bytes@,
            _ => Seq::empty(),
        }
    }
}

/// The bytes that a copy takes from a stream whose successive reads return
/// `reads`: the data up to the first read that ends the stream or fails.
/// A stream whose reads run out without either has ended.
pub open spec fn copied(reads: Seq<ReadOutcome>) -> Seq<u8>
    decreases reads.len(),
{
    if reads.len() == 0 || reads[0].stops() {
        Seq::empty()
    } else {
        reads[0].payload() + copied(reads.drop_first())
    }
}

/// Whether a copy of the stream is cut short by a failed read, that is,
/// whether a failure comes before the first read that ends the stream.
pub open spec fn fails(reads: Seq<ReadOutcome>) -> bool
    decreases reads.len(),
{
    if reads.len() == 0 {
        false
    } else if reads[0].stops() {
        reads[0] is Failed
    } else {
        fails(reads.drop_first())
    }
}

/// Deals with the outcome of one read during a copy that has moved
/// `written` bytes so far: data goes to the hasher and the copy continues,
/// an interrupted read changes nothing and the copy continues, the end of
/// the stream finishes the copy, a failure abandons it.
pub fn copy_step(writer: &mut StreamHasher, written: u64, outcome: &ReadOutcome) -> (step: CopyStep)
    requires
        written + outcome.payload().len() <= u64::MAX,
        old(writer).input().len() + outcome.payload().len() <= u64::MAX,
    ensures
        final(writer).input() == old(writer).input() + outcome.payload(),
        step == match *outcome {
            ReadOutcome::Failed => CopyStep::Abort,
            ReadOutcome::Interrupted => CopyStep::Continue(written),
            ReadOutcome::Data(bytes) => if bytes@.len() == 0 {
                CopyStep::Done(written)
            } else {
                CopyStep::Continue((written + bytes@.len()) as u64)
            },
        },
{
    match outcome {
        ReadOutcome::Data(bytes) => {
            let len: usize = bytes.len();
            if len == 0 {
                CopyStep::Done(written)
            } else {
                writer.write(bytes.as_slice());
                CopyStep::Continue(written + len as u64)
            }
        },
        ReadOutcome::Interrupted => CopyStep::Continue(written),
        ReadOutcome::Failed => CopyStep::Abort,
    }
}

/// Copies a stream into a hasher, given what the successive reads of the
/// stream returned, and reports how many bytes were copied. Interrupted reads
/// are passed over; the first failed read ends the copy with an error, after
/// the data before it has reached the hasher.
pub fn copy(reader: &Vec<ReadOutcome>, writer: &mut StreamHasher) -> (result: Result<
    u64,
    ReadError,
>)
    requires
        old(writer).input().len() + copied(reader@).len() <= u64::MAX,
    ensures
        final(writer).input() == old(writer).input() + copied(reader@),
        result == if fails(reader@) {
            Err::<u64, ReadError>(ReadError)
        } else {
            Ok(copied(reader@).len() as u64)
        },
{
    let mut written: u64 = 0;
    let mut next: usize = 0;
    assert(reader@.skip(0) =~= reader@);
    while next < reader.len()
        invariant
            next <= reader.len(),
            old(writer).input() + copied(reader@) == writer.input() + copied(
                reader@.skip(next as int),
            ),
            copied(reader@).len() == written + copied(reader@.skip(next as int)).len(),
            writer.input().len() == old(writer).input().len() + written,
            fails(reader@) == fails(reader@.skip(next as int)),
            old(writer).input().len() + copied(reader@).len() <= u64::MAX,
        decreases reader.len() - next,
    {
        proof {
            lemma_unfold_at(reader@, next as int);
        }
        let ghost before = writer.input();
        match copy_step(writer, written, &reader[next]) {
            CopyStep::Continue(total) => {
                assert(old(writer).input() + copied(reader@) =~= (before
                    + reader[next as int].payload()) + copied(reader@.skip(next + 1)));
                written = total;
                next = next + 1;
            },
            CopyStep::Done(total) => {
                return Ok(total);
            },
            CopyStep::Abort => {
                return Err(ReadError);
            },
        }
    }
    Ok(written)
}

/// Hashes a stream, given what its successive reads returned: the XXH64
/// digest, under seed 0, of the bytes of the stream, or an error if a read
/// failed before the stream ended.
pub fn to_hash(reader: &Vec<ReadOutcome>) -> (result: Result<u64, ReadError>)
    requires
        copied(reader@).len() <= u64::MAX,
    ensures
        result == if fails(reader@) {
            Err::<u64, ReadError>(ReadError)
        } else {
            Ok(xxh64(0, copied(reader@)))
        },
{
    let mut hasher = StreamHasher::new();
    match copy(reader, &mut hasher) {
        Ok(_) => Ok(hasher.finish()),
        Err(e) => Err(e),
    }
}

/// [`copied`] and [`fails`] of the reads from position `at` on, in terms of
/// the read at `at` and of the reads after it.
proof fn lemma_unfold_at(reads: Seq<ReadOutcome>, at: int)
    requires
        0 <= at < reads.len(),
    ensures
        copied(reads.skip(at)) == if reads[at].stops() {
            Seq::<u8>::empty()
        } else {
            reads[at].payload() + copied(reads.skip(at + 1))
        },
        fails(reads.skip(at)) == if reads[at].stops() {
            reads[at] is Failed
        } else {
            fails(reads.skip(at + 1))
        },
{
    assert(reads.skip(at).drop_first() =~= reads.skip(at + 1));
}

} // verus!
