//! Splitting data into chunks, each with its SHA-256 hash.
use vstd::prelude::*;
use crate::crypto::{sha256, sha256_digest};

verus! {

broadcast use vstd::seq_lib::group_seq_properties;

/// The pieces `data` is split into: consecutive runs of `chunk_size` bytes,
/// the last one possibly shorter. No pieces for empty data or a chunk size of 0.
pub open spec fn split_chunks(data: Seq<u8>, chunk_size: nat) -> Seq<Seq<u8>>
    decreases data.len(),
{
    if chunk_size == 0 || data.len() == 0 {
        Seq::empty()
    } else if data.len() <= chunk_size {
        seq![data]
    } else {
        seq![data.take(chunk_size as int)] + split_chunks(data.skip(chunk_size as int), chunk_size)
    }
}

/// The data of each chunk, in order.
pub open spec fn chunks_data(chunks: Seq<Chunk>) -> Seq<Seq<u8>> {
    chunks.map_values(|c: Chunk| c.data@)
}

/// A chunk of data with its position and SHA-256 hash.
#[derive(Debug)]
pub struct Chunk {
    pub index: u64,
    pub offset: u64,
    pub data: Vec<u8>,
    pub hash: [u8; 32],
}

impl Clone for Chunk {
    fn clone(&self) -> (c: Self)
        ensures
            c.index == self.index,
            c.offset == self.offset,
            c.data@ == self.data@,
            c.hash == self.hash,
    {
        Chunk { index: self.index, offset: self.offset, data: self.data.clone(), hash: self.hash }
    }
}

impl Chunk {
    /// Whether the hash matches the data.
    pub fn verify(&self) -> (ok: bool)
        ensures
            ok == (sha256(self.data@) == self.hash),
    {
        let computed = sha256_digest(self.data.as_slice());
        let mut i: usize = 0;
        while i < 32
            invariant
                i <= 32,
                computed == sha256(self.data@),
                forall|j: int| 0 <= j < i ==> computed@[j] == self.hash@[j],
            decreases 32 - i,
        {
            if computed[i] != self.hash[i] {
                assert(computed@[i as int] != self.hash@[i as int]);
                assert(computed@ != self.hash@);
                return false;
            }
            i = i + 1;
        }
        assert(computed =~= self.hash) by {
            broadcast use vstd::array::group_array_axioms;
        }
        true
    }
}

/// Splits a byte source into chunks, computing a SHA-256 hash per chunk.
///
/// The source is either held in memory (`new`, then `next_chunk` or
/// `collect_chunks`), or read by the caller in reads of any size, each
/// handed over with `push_read`, and the end of the source marked with
/// `collect_chunks`.
pub struct ChunkReader {
    inner: Vec<u8>,
    pos: usize,
    chunk_size: usize,
    index: u64,
    offset: u64,
    done: bool,
}

impl ChunkReader {
    #[verifier::type_invariant]
    spec fn wf(self) -> bool {
        &&& self.pos <= self.inner@.len()
        &&& self.index <= self.offset
        &&& self.offset + (self.inner@.len() - self.pos) <= u64::MAX
    }

    /// The bytes held in memory that have not been handed out yet.
    pub closed spec fn unread(self) -> Seq<u8> {
        self.inner@.skip(self.pos as int)
    }

    /// The index the next chunk gets.
    pub closed spec fn next_index(self) -> u64 {
        self.index
    }

    /// The offset the next chunk gets.
    pub closed spec fn next_offset(self) -> u64 {
        self.offset
    }

    /// The chunk size the reader was made with.
    pub closed spec fn spec_chunk_size(self) -> usize {
        self.chunk_size
    }

    /// Whether the reader has reported the end of its data.
    pub closed spec fn is_done(self) -> bool {
        self.done
    }

    /// A reader over `inner`, cutting chunks of `chunk_size` bytes.
    pub fn new(inner: &[u8], chunk_size: usize) -> (r: Self)
        ensures
            r.unread() == inner@,
            r.next_index() == 0,
            r.next_offset() == 0,
            r.spec_chunk_size() == chunk_size,
            !r.is_done(),
    {
        let v = vstd::slice::slice_to_vec(inner);
        let _n = v.len();
        let r = ChunkReader { inner: v, pos: 0, chunk_size, index: 0, offset: 0, done: false };
        assert(r.inner@.skip(0) =~= inner@);
        r
    }

    /// The next chunk of the in-memory data: the first piece of
    /// `split_chunks(unread, chunk_size)`, hashed, with the reader's current
    /// index and offset. `None` once the data is exhausted (or the chunk size
    /// is 0), after which the reader stays done.
    pub fn next_chunk(&mut self) -> (c: Option<Chunk>)
        ensures
            final(self).spec_chunk_size() == old(self).spec_chunk_size(),
            match c {
                None => {
                    &&& old(self).is_done() || split_chunks(
                        old(self).unread(),
                        old(self).spec_chunk_size() as nat,
                    ).len() == 0
                    &&& final(self).is_done()
                    &&& final(self).unread() == old(self).unread()
                    &&& final(self).next_index() == old(self).next_index()
                    &&& final(self).next_offset() == old(self).next_offset()
                },
                Some(c) => {
                    let pieces = split_chunks(old(self).unread(), old(self).spec_chunk_size() as nat);
                    &&& !old(self).is_done()
                    &&& pieces.len() > 0
                    &&& c.data@ == pieces[0]
                    &&& c.index == old(self).next_index()
                    &&& c.offset == old(self).next_offset()
                    &&& c.hash == crate::crypto::sha256(c.data@)
                    &&& final(self).unread() == old(self).unread().skip(c.data@.len() as int)
                    &&& split_chunks(final(self).unread(), old(self).spec_chunk_size() as nat)
                        == pieces.drop_first()
                    &&& final(self).next_index() == old(self).next_index() + 1
                    &&& final(self).next_offset() == old(self).next_offset() + c.data@.len()
                    &&& !final(self).is_done()
                },
            },
    {
        proof {
            use_type_invariant(&*self);
        }
        if self.done {
            return None;
        }
        let remaining = self.inner.len() - self.pos;
        if self.chunk_size == 0 || remaining == 0 {
            self.done = true;
            return None;
        }
        let take = if remaining < self.chunk_size {
            remaining
        } else {
            self.chunk_size
        };
        let ghost rest = self.inner@.skip(self.pos as int);
        let data = vstd::slice::slice_to_vec(
            vstd::slice::slice_subrange(self.inner.as_slice(), self.pos, self.pos + take),
        );
        assert(data@ =~= split_chunks(rest, self.chunk_size as nat)[0]);
        let hash = sha256_digest(data.as_slice());
        let c = Chunk { index: self.index, offset: self.offset, data, hash };
        self.pos = self.pos + take;
        self.offset = self.offset + take as u64;
        self.index = self.index + 1;
        proof {
            assert(self.inner@.skip(self.pos as int) =~= rest.skip(take as int));
            if rest.len() <= self.chunk_size {
                assert(rest.skip(take as int) =~= Seq::<u8>::empty());
            }
        }
        Some(c)
    }

    /// Hand over the next bytes read from the source: every whole chunk of
    /// the bytes held so far is cut, in order, and the fewer than
    /// `chunk_size` bytes left wait for the next read. How the source was
    /// cut into reads makes no difference (see `chunks_of_reads` and
    /// `lemma_reads_make_no_difference`). A reader that is done, or whose
    /// chunk size is 0, cuts nothing and stays as it is.
    pub fn push_read(&mut self, bytes: &[u8]) -> (out: Vec<Chunk>)
        requires
            old(self).next_offset() + old(self).unread().len() + bytes@.len() <= u64::MAX,
        ensures
            old(self).is_done() || old(self).spec_chunk_size() == 0 ==> out@.len() == 0 && *final(self)
                == *old(self),
            !old(self).is_done() && old(self).spec_chunk_size() > 0 ==> ({
                let u = old(self).unread() + bytes@;
                let cs = old(self).spec_chunk_size() as nat;
                &&& out@.len() == u.len() / cs
                &&& chunks_data(out@) == split_chunks(u, cs).take(out@.len() as int)
                &&& forall|j: int|
                    0 <= j < out@.len() ==> {
                        &&& (#[trigger] out@[j]).data@ == split_chunks(u, cs)[j]
                        &&& out@[j].data@.len() == cs
                        &&& out@[j].index == old(self).next_index() + j
                        &&& out@[j].offset == old(self).next_offset() + j * cs
                        &&& out@[j].hash == sha256(out@[j].data@)
                    }
                &&& final(self).unread() == u.skip((out@.len() * cs) as int)
                &&& final(self).unread().len() < cs
                &&& final(self).next_index() == old(self).next_index() + out@.len()
                &&& final(self).next_offset() == old(self).next_offset() + out@.len() * cs
            }),
            final(self).is_done() == old(self).is_done(),
            final(self).spec_chunk_size() == old(self).spec_chunk_size(),
    {
        proof {
            use_type_invariant(&*self);
        }
        if self.done || self.chunk_size == 0 {
            return Vec::new();
        }
        let ghost u = self.unread() + bytes@;
        let ghost cs = self.chunk_size as nat;
        let ghost i0 = self.index;
        let ghost o0 = self.offset;
        let mut buf = vstd::slice::slice_to_vec(
            vstd::slice::slice_subrange(self.inner.as_slice(), self.pos, self.inner.len()),
        );
        let mut k: usize = 0;
        while k < bytes.len()
            invariant
                k <= bytes@.len(),
                buf@ == self.inner@.skip(self.pos as int) + bytes@.take(k as int),
            decreases bytes@.len() - k,
        {
            buf.push(bytes[k]);
            k = k + 1;
            assert(buf@ =~= self.inner@.skip(self.pos as int) + bytes@.take(k as int));
        }
        assert(bytes@.take(k as int) =~= bytes@);
        *self = ChunkReader {
            inner: buf,
            pos: 0,
            chunk_size: self.chunk_size,
            index: self.index,
            offset: self.offset,
            done: false,
        };
        assert(self.unread() =~= u);
        let mut out: Vec<Chunk> = Vec::new();
        assert(u.skip(0) =~= u);
        assert(split_chunks(u, cs).skip(0) =~= split_chunks(u, cs));
        assert(out@.len() == 0);
        assert(out@.len() * cs == 0) by (nonlinear_arith)
            requires
                out@.len() == 0,
        ;
        assert(self.unread() == u.skip((out@.len() * cs) as int));
        while self.inner.len() - self.pos >= self.chunk_size
            invariant
                cs == self.chunk_size,
                cs > 0,
                !self.done,
                self.pos <= self.inner@.len(),
                self.unread() == u.skip((out@.len() * cs) as int),
                out@.len() * cs <= u.len(),
                out@.len() <= split_chunks(u, cs).len(),
                split_chunks(self.unread(), cs) == split_chunks(u, cs).skip(out@.len() as int),
                self.index == i0 + out@.len(),
                self.offset == o0 + out@.len() * cs,
                forall|j: int|
                    0 <= j < out@.len() ==> {
                        &&& (#[trigger] out@[j]).data@ == split_chunks(u, cs)[j]
                        &&& out@[j].data@.len() == cs
                        &&& out@[j].index == i0 + j
                        &&& out@[j].offset == o0 + j * cs
                        &&& out@[j].hash == sha256(out@[j].data@)
                    },
            decreases self.unread().len(),
        {
            proof {
                use_type_invariant(&*self);
            }
            let ghost before = self.unread();
            let ghost n = out@.len();
            let c = self.next_chunk();
            match c {
                Some(c) => {
                    proof {
                        assert(split_chunks(before, cs).len() > 0);
                        assert(split_chunks(u, cs).skip(n as int).len() > 0);
                        assert(c.data@.len() == cs);
                        assert(split_chunks(u, cs).skip(n as int)[0] == split_chunks(u, cs)[n as int]);
                        assert(split_chunks(u, cs).skip(n as int).drop_first() =~= split_chunks(u, cs).skip(
                            (n + 1) as int,
                        ));
                        assert((n + 1) * cs == n * cs + cs) by (nonlinear_arith);
                        assert(u.skip((n * cs) as int).skip(cs as int) =~= u.skip(((n + 1) * cs) as int));
                    }
                    let ghost prev = out@;
                    out.push(c);
                    proof {
                        assert forall|j: int| 0 <= j < out@.len() implies {
                            &&& (#[trigger] out@[j]).data@ == split_chunks(u, cs)[j]
                            &&& out@[j].data@.len() == cs
                            &&& out@[j].index == i0 + j
                            &&& out@[j].offset == o0 + j * cs
                            &&& out@[j].hash == sha256(out@[j].data@)
                        } by {
                            if j < n {
                                assert(out@[j] == prev[j]);
                            }
                        }
                    }
                },
                None => {
                    proof {
                        assert(false);
                    }
                },
            }
            proof {
                use_type_invariant(&*self);
            }
        }
        proof {
            let n = out@.len();
            assert(n == u.len() / cs) by (nonlinear_arith)
                requires
                    n * cs <= u.len(),
                    u.len() - n * cs < cs,
                    cs > 0,
            ;
            assert(chunks_data(out@) =~= split_chunks(u, cs).take(n as int));
        }
        out
    }

    /// Cut all the chunks of the bytes still held (the whole in-memory
    /// source, or what is left after the last `push_read`), in order, and
    /// mark the end of the source. Nothing is cut once the reader is done
    /// or for a chunk size of 0.
    pub fn collect_chunks(&mut self) -> (out: Vec<Chunk>)
        ensures
            ({
                let u = old(self).unread();
                let cs = old(self).spec_chunk_size() as nat;
                let pieces = if old(self).is_done() {
                    Seq::<Seq<u8>>::empty()
                } else {
                    split_chunks(u, cs)
                };
                &&& out@.len() == pieces.len()
                &&& forall|j: int|
                    0 <= j < out@.len() ==> {
                        &&& (#[trigger] out@[j]).data@ == pieces[j]
                        &&& out@[j].index == old(self).next_index() + j
                        &&& out@[j].offset == old(self).next_offset() + j * cs
                        &&& out@[j].hash == sha256(out@[j].data@)
                    }
            }),
            !old(self).is_done() && old(self).spec_chunk_size() > 0 ==> {
                let u = old(self).unread();
                let cs = old(self).spec_chunk_size() as nat;
                &&& chunks_data(out@).flatten() == u
                &&& out@.len() == (u.len() + cs - 1) / cs as int
            },
            final(self).is_done(),
            final(self).spec_chunk_size() == old(self).spec_chunk_size(),
    {
        proof {
            use_type_invariant(&*self);
        }
        let ghost u = self.unread();
        let ghost cs = self.chunk_size as nat;
        let ghost i0 = self.index;
        let ghost o0 = self.offset;
        let ghost pieces = if self.done {
            Seq::<Seq<u8>>::empty()
        } else {
            split_chunks(u, cs)
        };
        let mut out: Vec<Chunk> = Vec::new();
        assert(pieces.skip(0) =~= pieces);
        assert(u.skip(0) =~= u);
        loop
            invariant
                cs == self.chunk_size,
                pieces == (if old(self).done {
                    Seq::<Seq<u8>>::empty()
                } else {
                    split_chunks(u, cs)
                }),
                out@.len() <= pieces.len(),
                !self.done ==> split_chunks(self.unread(), cs) == pieces.skip(out@.len() as int),
                self.done ==> out@.len() == pieces.len(),
                out@.len() < pieces.len() ==> out@.len() * cs <= u.len() && self.unread() == u.skip(
                    (out@.len() * cs) as int,
                ) && self.offset == o0 + out@.len() * cs,
                self.index == i0 + out@.len(),
                forall|j: int|
                    0 <= j < out@.len() ==> {
                        &&& (#[trigger] out@[j]).data@ == pieces[j]
                        &&& out@[j].index == i0 + j
                        &&& out@[j].offset == o0 + j * cs
                        &&& out@[j].hash == sha256(out@[j].data@)
                    },
            ensures
                self.done,
                out@.len() == pieces.len(),
                forall|j: int|
                    0 <= j < out@.len() ==> {
                        &&& (#[trigger] out@[j]).data@ == pieces[j]
                        &&& out@[j].index == i0 + j
                        &&& out@[j].offset == o0 + j * cs
                        &&& out@[j].hash == sha256(out@[j].data@)
                    },
            decreases pieces.len() - out@.len(),
        {
            let ghost n = out@.len();
            let ghost before = self.unread();
            match self.next_chunk() {
                Some(c) => {
                    proof {
                        assert(split_chunks(before, cs).len() > 0);
                        assert(pieces.skip(n as int).len() > 0);
                        assert(pieces.skip(n as int)[0] == pieces[n as int]);
                        assert(pieces.skip(n as int).drop_first() =~= pieces.skip((n + 1) as int));
                        if n + 1 < pieces.len() {
                            assert(split_chunks(before, cs).len() > 1);
                            assert(before.len() > cs);
                            assert((n + 1) * cs == n * cs + cs) by (nonlinear_arith);
                            assert(u.skip((n * cs) as int).skip(cs as int) =~= u.skip(((n + 1) * cs) as int));
                        }
                    }
                    let ghost prev = out@;
                    out.push(c);
                    proof {
                        assert forall|j: int| 0 <= j < out@.len() implies {
                            &&& (#[trigger] out@[j]).data@ == pieces[j]
                            &&& out@[j].index == i0 + j
                            &&& out@[j].offset == o0 + j * cs
                            &&& out@[j].hash == sha256(out@[j].data@)
                        } by {
                            if j < n {
                                assert(out@[j] == prev[j]);
                            }
                        }
                    }
                },
                None => {
                    proof {
                        if !old(self).done {
                            assert(pieces.skip(n as int).len() == 0);
                        }
                    }
                    break;
                },
            }
        }
        proof {
            if !old(self).done && cs > 0 {
                assert(chunks_data(out@) =~= pieces);
                lemma_split_chunks_reassemble(u, cs);
                lemma_split_chunks_count(u, cs);
            }
        }
        out
    }
}

/// Splitting loses and reorders nothing: the pieces, concatenated, are the
/// data; every piece is non-empty and at most `chunk_size` long, and all but
/// the last are exactly `chunk_size` long.
pub proof fn lemma_split_chunks_reassemble(data: Seq<u8>, chunk_size: nat)
    requires
        chunk_size > 0,
    ensures
        split_chunks(data, chunk_size).flatten() == data,
        forall|i: int|
            0 <= i < split_chunks(data, chunk_size).len() ==> 0 < (#[trigger] split_chunks(
                data,
                chunk_size,
            )[i]).len() <= chunk_size,
        forall|i: int|
            0 <= i < split_chunks(data, chunk_size).len() - 1 ==> (#[trigger] split_chunks(
                data,
                chunk_size,
            )[i]).len() == chunk_size,
    decreases data.len(),
{
    let pieces = split_chunks(data, chunk_size);
    if data.len() == 0 {
        assert(pieces.flatten() =~= data);
    } else if data.len() <= chunk_size {
        pieces.lemma_flatten_one_element();
    } else {
        let rest = data.skip(chunk_size as int);
        lemma_split_chunks_reassemble(rest, chunk_size);
        assert(pieces.drop_first() =~= split_chunks(rest, chunk_size));
        assert(data.take(chunk_size as int) + rest =~= data);
        assert forall|i: int| 0 < i < pieces.len() implies pieces[i] == split_chunks(
            rest,
            chunk_size,
        )[i - 1] by {}
    }
}

/// `q` full pieces: data of exactly `q * chunk_size` bytes splits into `q`
/// pieces, each the next `chunk_size` bytes.
proof fn lemma_split_full(data: Seq<u8>, chunk_size: nat, q: nat)
    requires
        chunk_size > 0,
        data.len() == q * chunk_size,
    ensures
        split_chunks(data, chunk_size).len() == q,
        forall|j: int|
            0 <= j < q ==> #[trigger] split_chunks(data, chunk_size)[j] == data.subrange(
                j * chunk_size,
                (j + 1) * chunk_size,
            ),
    decreases q,
{
    if q > 0 {
        let cs = chunk_size as int;
        assert(data.len() == (q - 1) * cs + cs) by (nonlinear_arith)
            requires
                data.len() == q * cs,
                q > 0,
        ;
        let rest = data.skip(cs);
        lemma_split_full(rest, chunk_size, (q - 1) as nat);
        let pieces = split_chunks(data, chunk_size);
        if q == 1 {
            assert(data.len() == cs);
            assert(pieces == seq![data]);
            assert(data.subrange(0, cs) =~= data);
        } else {
            assert((q - 1) * cs >= cs) by (nonlinear_arith)
                requires
                    q >= 2,
                    cs > 0,
            ;
            assert(pieces == seq![data.take(cs)] + split_chunks(rest, chunk_size));
            assert forall|j: int| 0 <= j < q implies #[trigger] pieces[j] == data.subrange(
                j * cs,
                (j + 1) * cs,
            ) by {
                if j == 0 {
                    assert(pieces[0] == data.take(cs));
                    assert(data.take(cs) =~= data.subrange(0, cs));
                    assert(0 * cs == 0 && (0 + 1) * cs == cs) by (nonlinear_arith);
                    assert(pieces[j] == data.subrange(j * cs, (j + 1) * cs));
                } else {
                    let jj = j - 1;
                    assert(pieces[j] == split_chunks(rest, chunk_size)[jj]);
                    assert(j * cs == jj * cs + cs && (j + 1) * cs == (jj + 1) * cs + cs) by (nonlinear_arith)
                        requires
                            jj == j - 1,
                    ;
                    assert((jj + 1) * cs <= (q - 1) * cs) by (nonlinear_arith)
                        requires
                            jj + 1 <= q - 1,
                            cs > 0,
                    ;
                    assert(0 <= jj * cs) by (nonlinear_arith)
                        requires
                            jj >= 0,
                            cs > 0,
                    ;
                    assert(split_chunks(rest, chunk_size)[jj] == rest.subrange(jj * cs, (jj + 1) * cs));
                    assert(rest.subrange(jj * cs, (jj + 1) * cs) =~= data.subrange(j * cs, (j + 1) * cs));
                    assert(pieces[j] == data.subrange(j * cs, (j + 1) * cs));
                }
            }
        }
    } else {
        assert(data.len() == 0) by (nonlinear_arith)
            requires
                data.len() == q * chunk_size,
                q == 0,
        ;
    }
}

/// Splitting a concatenation whose first part is `q` whole chunks splits
/// the two parts separately.
proof fn lemma_split_append(a: Seq<u8>, b: Seq<u8>, chunk_size: nat, q: nat)
    requires
        chunk_size > 0,
        a.len() == q * chunk_size,
    ensures
        split_chunks(a + b, chunk_size) == split_chunks(a, chunk_size) + split_chunks(b, chunk_size),
    decreases q,
{
    let cs = chunk_size as int;
    if q == 0 {
        assert(a.len() == 0) by (nonlinear_arith)
            requires
                a.len() == q * chunk_size,
                q == 0,
        ;
        assert(a + b =~= b);
        assert(split_chunks(a, chunk_size) =~= Seq::<Seq<u8>>::empty());
        assert(split_chunks(a, chunk_size) + split_chunks(b, chunk_size) =~= split_chunks(b, chunk_size));
    } else {
        assert(a.len() == (q - 1) * cs + cs) by (nonlinear_arith)
            requires
                a.len() == q * cs,
                q > 0,
        ;
        assert(q == 1 ==> a.len() == cs) by (nonlinear_arith)
            requires
                a.len() == (q - 1) * cs + cs,
        ;
        assert(q >= 2 ==> a.len() >= 2 * cs) by (nonlinear_arith)
            requires
                a.len() == (q - 1) * cs + cs,
                cs > 0,
        ;
        let a2 = a.skip(cs);
        lemma_split_append(a2, b, chunk_size, (q - 1) as nat);
        assert((a + b).take(cs) =~= a.take(cs));
        assert((a + b).skip(cs) =~= a2 + b);
        if b.len() == 0 && q == 1 {
            assert(a + b =~= a);
            assert(split_chunks(b, chunk_size) =~= Seq::<Seq<u8>>::empty());
            assert(split_chunks(a, chunk_size) + split_chunks(b, chunk_size) =~= split_chunks(a, chunk_size));
        } else {
            assert((a + b).len() > cs);
            if q == 1 {
                assert(a2.len() == 0);
                assert(a2 + b =~= b);
                assert(split_chunks(a, chunk_size) == seq![a]);
                assert(a.take(cs) =~= a);
                assert(split_chunks(a2, chunk_size) =~= Seq::<Seq<u8>>::empty());
            } else {
                assert(a.len() > cs) by (nonlinear_arith)
                    requires
                        a.len() == (q - 1) * cs + cs,
                        q >= 2,
                        cs > 0,
                ;
            }
            assert(split_chunks(a + b, chunk_size) =~= split_chunks(a, chunk_size) + split_chunks(b, chunk_size));
        }
    }
}

/// Cutting a stream into chunks does not depend on how it was read: the
/// whole chunks cut from the bytes read so far, followed by the chunks of
/// what is left of them and the rest of the stream, are the chunks of the
/// whole stream.
pub proof fn lemma_chunks_independent_of_reads(read: Seq<u8>, rest: Seq<u8>, chunk_size: nat)
    requires
        chunk_size > 0,
    ensures
        ({
            let k = read.len() / chunk_size;
            split_chunks(read, chunk_size).take(k as int) + split_chunks(
                read.skip((k * chunk_size) as int) + rest,
                chunk_size,
            ) == split_chunks(read + rest, chunk_size)
        }),
{
    let k = read.len() / chunk_size;
    let cs = chunk_size as int;
    assert(k * cs <= read.len() && read.len() - k * cs < cs) by (nonlinear_arith)
        requires
            k == read.len() / chunk_size,
            cs == chunk_size,
            cs > 0,
    ;
    let a = read.take(k * cs);
    let r = read.skip(k * cs);
    assert(a + r =~= read);
    assert(read + rest =~= a + (r + rest));
    lemma_split_append(a, r + rest, chunk_size, k);
    lemma_split_append(a, r, chunk_size, k);
    lemma_split_full(a, chunk_size, k);
    assert(split_chunks(read, chunk_size).take(k as int) =~= split_chunks(a, chunk_size));
}

/// The chunks a reader cuts when, holding `held`, it is handed `reads` one
/// by one with `push_read` and then closed with `collect_chunks`: each read
/// gives the whole chunks of what is held, and the close gives the rest.
pub open spec fn chunks_of_reads(held: Seq<u8>, reads: Seq<Seq<u8>>, chunk_size: nat) -> Seq<Seq<u8>>
    decreases reads.len(),
{
    if reads.len() == 0 || chunk_size == 0 {
        split_chunks(held, chunk_size)
    } else {
        let u = held + reads[0];
        let k = u.len() / chunk_size;
        split_chunks(u, chunk_size).take(k as int) + chunks_of_reads(
            u.skip((k * chunk_size) as int),
            reads.drop_first(),
            chunk_size,
        )
    }
}

/// However a source is cut into reads, the reader cuts the same chunks:
/// those of the whole source.
pub proof fn lemma_reads_make_no_difference(held: Seq<u8>, reads: Seq<Seq<u8>>, chunk_size: nat)
    requires
        chunk_size > 0,
    ensures
        chunks_of_reads(held, reads, chunk_size) == split_chunks(held + reads.flatten(), chunk_size),
    decreases reads.len(),
{
    if reads.len() == 0 {
        assert(reads.flatten() =~= Seq::<u8>::empty());
        assert(held + reads.flatten() =~= held);
    } else {
        let u = held + reads[0];
        let k = u.len() / chunk_size;
        let rest = reads.drop_first().flatten();
        lemma_reads_make_no_difference(u.skip((k * chunk_size) as int), reads.drop_first(), chunk_size);
        lemma_chunks_independent_of_reads(u, rest, chunk_size);
        assert(held + reads.flatten() =~= u + rest);
    }
}

/// How many chunks data takes: its length divided by the chunk size,
/// rounded up.
pub proof fn lemma_split_chunks_count(data: Seq<u8>, chunk_size: nat)
    requires
        chunk_size > 0,
    ensures
        split_chunks(data, chunk_size).len() == (data.len() + chunk_size - 1) / chunk_size as int,
    decreases data.len(),
{
    let cs = chunk_size as int;
    if data.len() == 0 {
        assert((cs - 1) / cs == 0) by (nonlinear_arith)
            requires
                cs > 0,
        ;
    } else if data.len() <= chunk_size {
        assert((data.len() + cs - 1) / cs == 1) by (nonlinear_arith)
            requires
                cs > 0,
                0 < data.len() <= cs,
        ;
    } else {
        lemma_split_chunks_count(data.skip(cs), chunk_size);
        let n = data.len() as int;
        assert((n + cs - 1) / cs == (n - cs + cs - 1) / cs + 1) by (nonlinear_arith)
            requires
                cs > 0,
                n > cs,
        ;
    }
}

} // verus!
