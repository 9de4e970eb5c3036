use vstd::prelude::*;
use vstd::slice::slice_subrange;

verus! {

#[verifier::external_type_specification]
#[verifier::external_body]
pub struct ExContext(md5::Context);

/// The MD5 digest of a byte string.
pub uninterp spec fn md5_of(data: Seq<u8>) -> Seq<u8>;

/// The bytes that an MD5 context has consumed since it was created.
pub uninterp spec fn md5_input(ctx: md5::Context) -> Seq<u8>;

/// Relies on md5::Context::new: a fresh context has consumed nothing.
#[verifier::external_body]
fn context_new() -> (r: md5::Context)
    ensures
        md5_input(r) == Seq::<u8>::empty(),
{
    md5::Context::new()
}

/// Relies on md5::Context::consume: the bytes are appended to the message.
#[verifier::external_body]
fn context_consume(ctx: &mut md5::Context, data: &[u8])
    ensures
        md5_input(*final(ctx)) == md5_input(*old(ctx)) + data@,
{
    ctx.consume(data)
}

/// Relies on md5::Context::compute: the 16-byte MD5 digest of every byte
/// consumed, in order.
#[verifier::external_body]
fn context_compute(ctx: md5::Context) -> (r: Vec<u8>)
    ensures
        r@ == md5_of(md5_input(ctx)),
        r@.len() == 16,
{
    ctx.compute().0.to_vec()
}

/// The lowercase hexadecimal digit for `n` (below 16).
pub open spec fn hex_digit(n: u8) -> char {
    seq!['0', '1', '2', '3', '4', '5', '6', '7', '8', '9', 'a', 'b', 'c', 'd', 'e', 'f'][n as int]
}

/// Two lowercase hexadecimal digits per byte, high nibble first.
pub open spec fn hex_text(bytes: Seq<u8>) -> Seq<char> {
    Seq::new(
        2 * bytes.len(),
        |k: int|
            if k % 2 == 0 {
                hex_digit(bytes[k / 2] / 16)
            } else {
                hex_digit(bytes[k / 2] % 16)
            },
    )
}

/// Relies on md5's `LowerHex` for `Digest`, which writes each of the 16 bytes
/// as `{:02x}`.
#[verifier::external_body]
fn digest_lower_hex(digest: &[u8]) -> (r: String)
    requires
        digest@.len() == 16,
    ensures
        r@ == hex_text(digest@),
{
    let mut bytes = [0u8; 16];
    bytes.copy_from_slice(digest);
    format!("{:x}", md5::Digest(bytes))
}

/// Length in bytes of every digest.
pub const DIGEST_LEN: usize = 16;

/// An MD5 computation fed chunk by chunk; memory use does not grow with the
/// input.
pub struct StreamHasher {
    ctx: md5::Context,
}

impl View for StreamHasher {
    type V = Seq<u8>;

    /// Everything fed so far.
    closed spec fn view(&self) -> Seq<u8> {
        md5_input(self.ctx)
    }
}

impl StreamHasher {
    pub fn new() -> (r: Self)
        ensures
            r@ == Seq::<u8>::empty(),
    {
        StreamHasher { ctx: context_new() }
    }

    pub fn update(&mut self, chunk: &[u8])
        ensures
            final(self)@ == old(self)@ + chunk@,
    {
        context_consume(&mut self.ctx, chunk);
    }

    pub fn finish(self) -> (r: Vec<u8>)
        ensures
            r@ == md5_of(self@),
            r@.len() == DIGEST_LEN,
    {
        context_compute(self.ctx)
    }
}

/// The digest as text: lowercase hexadecimal, two digits per byte.
pub fn to_hex(digest: &Vec<u8>) -> (r: String)
    requires
        digest@.len() == DIGEST_LEN,
    ensures
        r@ == hex_text(digest@),
        r@.len() == 2 * DIGEST_LEN,
{
    digest_lower_hex(digest.as_slice())
}

/// Splits `data` into consecutive pieces of `size` bytes; the last one may be
/// shorter.
pub open spec fn chunked(data: Seq<u8>, size: nat) -> Seq<Seq<u8>>
    recommends
        size > 0,
    decreases data.len(),
{
    if size == 0 || data.len() == 0 {
        Seq::empty()
    } else if data.len() <= size {
        seq![data]
    } else {
        seq![data.take(size as int)] + chunked(data.skip(size as int), size)
    }
}

/// The digest of a stream is the digest of its pieces joined.
pub open spec fn stream_digest(chunks: Seq<Seq<u8>>) -> Seq<u8> {
    md5_of(chunks.flatten())
}

/// Cutting a byte string into pieces of any positive size and joining them
/// gives it back.
pub proof fn lemma_chunked_flatten(data: Seq<u8>, size: nat)
    requires
        size > 0,
    ensures
        chunked(data, size).flatten() == data,
    decreases data.len(),
{
    if data.len() == 0 {
    } else if data.len() <= size {
        seq![data].lemma_flatten_one_element();
    } else {
        let rest = chunked(data.skip(size as int), size);
        lemma_chunked_flatten(data.skip(size as int), size);
        vstd::seq_lib::lemma_flatten_concat(seq![data.take(size as int)], rest);
        seq![data.take(size as int)].lemma_flatten_one_element();
        assert(data.take(size as int) + data.skip(size as int) =~= data);
    }
}

/// Streaming a file in pieces of one size or of another yields the same
/// digest.
pub proof fn lemma_chunk_size_irrelevant(data: Seq<u8>, size_a: nat, size_b: nat)
    requires
        size_a > 0,
        size_b > 0,
    ensures
        stream_digest(chunked(data, size_a)) == stream_digest(chunked(data, size_b)),
        stream_digest(chunked(data, size_a)) == md5_of(data),
{
    lemma_chunked_flatten(data, size_a);
    lemma_chunked_flatten(data, size_b);
}

/// Digest of `data`, fed to the hasher `chunk_size` bytes at a time.
pub fn digest_in_chunks(data: &[u8], chunk_size: usize) -> (r: Vec<u8>)
    requires
        chunk_size > 0,
    ensures
        r@ == md5_of(data@),
        r@ == stream_digest(chunked(data@, chunk_size as nat)),
        r@.len() == DIGEST_LEN,
{
    let mut hasher = StreamHasher::new();
    let mut start: usize = 0;
    while start < data.len()
        invariant
            chunk_size > 0,
            start <= data@.len(),
            hasher@ == data@.take(start as int),
        decreases data@.len() - start,
    {
        let end: usize = if data.len() - start <= chunk_size {
            data.len()
        } else {
            start + chunk_size
        };
        let piece = slice_subrange(data, start, end);
        hasher.update(piece);
        assert(data@.take(start as int) + data@.subrange(start as int, end as int)
            =~= data@.take(end as int));
        start = end;
    }
    assert(data@.take(data@.len() as int) =~= data@);
    proof {
        lemma_chunked_flatten(data@, chunk_size as nat);
    }
    hasher.finish()
}

/// Digest of the concatenation of `parts`, in order.
pub fn digest_of_concat(parts: &Vec<Vec<u8>>) -> (r: Vec<u8>)
    ensures
        r@ == md5_of(parts.deep_view().flatten()),
        r@.len() == DIGEST_LEN,
{
    let mut hasher = StreamHasher::new();
    let mut i: usize = 0;
    while i < parts.len()
        invariant
            i <= parts.len(),
            hasher@ == parts.deep_view().take(i as int).flatten(),
        decreases parts.len() - i,
    {
        let part = &parts[i];
        hasher.update(part.as_slice());
        proof {
            let dv = parts.deep_view();
            assert(dv.take(i as int + 1) =~= dv.take(i as int).push(dv[i as int]));
            dv.take(i as int).lemma_flatten_push(dv[i as int]);
        }
        i = i + 1;
    }
    assert(parts.deep_view().take(parts.len() as int) =~= parts.deep_view());
    hasher.finish()
}

} // verus!
