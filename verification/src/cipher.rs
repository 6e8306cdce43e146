//! Ciphers that a stream of data is put through.

use vstd::prelude::*;

use crate::backend::{
    aead_key_size, aead_nonce_size, cfb, cfb_opened, crypter_data, crypter_new, crypter_setup,
    crypter_update, hkdf, hkdf_sha256, is_aead, seal, sealed, unsealed,
};
use crate::bytes::{be64, copy_range, extend, push_be64, to_vec};
use crate::error::{Error, ErrorView, Result};
use crate::types::{AEADAlgorithm, SymmetricAlgorithm};

verus! {

/// A number of zero octets.
pub open spec fn zeros(n: int) -> Seq<u8> {
    Seq::new(n as nat, |i: int| 0u8)
}

fn zero_octets(n: usize) -> (r: Vec<u8>)
    ensures
        r@ == zeros(n as int),
{
    let mut r: Vec<u8> = Vec::new();
    let mut i: usize = 0;
    while i < n
        invariant
            i <= n,
            r@ == zeros(i as int),
        decreases n - i,
    {
        r.push(0);
        i = i + 1;
        assert(r@ =~= zeros(i as int));
    }
    r
}

/// A cipher in feedback mode, with a zero initialization vector, that has
/// been given `data`.
#[verifier::ext_equal]
pub struct CfbView {
    pub algo: SymmetricAlgorithm,
    pub key: Seq<u8>,
    pub data: Seq<u8>,
}

impl CfbView {
    /// What has come out so far.
    pub open spec fn sent(self) -> Seq<u8> {
        cfb(
            self.algo.spec_cfb_nid()->0,
            self.key,
            zeros(self.algo.spec_block_size()->0 as int),
            self.data,
        )
    }

    /// What decrypting gives.
    pub open spec fn opened(self, s: Seq<u8>) -> Seq<u8> {
        cfb_opened(
            self.algo.spec_cfb_nid()->0,
            self.key,
            zeros(self.algo.spec_block_size()->0 as int),
            s,
        )
    }

    /// The cipher after the first octets of its data.
    pub open spec fn first(self, n: int) -> CfbView {
        CfbView { data: self.data.take(n), ..self }
    }

    /// Whether decrypting what has come out gives what was put in, and what
    /// has come out starts with what comes out for the start of the data.
    pub open spec fn opens(self) -> bool {
        &&& self.opened(self.sent()) == self.data
        &&& self.sent().len() == self.data.len()
        &&& forall|n: int|
            0 <= n <= self.data.len() ==> (#[trigger] self.first(n)).sent() == self.sent().take(n)
    }

    /// The cipher after some more data.
    pub open spec fn push(self, more: Seq<u8>) -> CfbView {
        CfbView { data: self.data + more, ..self }
    }
}

/// A cipher in feedback mode.
pub struct CfbEncryptor {
    algo: SymmetricAlgorithm,
    crypter: openssl::symm::Crypter,
}

impl View for CfbEncryptor {
    type V = CfbView;

    closed spec fn view(&self) -> CfbView {
        CfbView {
            algo: self.algo,
            key: crypter_setup(self.crypter).1,
            data: crypter_data(self.crypter),
        }
    }
}

impl CfbEncryptor {
    pub closed spec fn wf(&self) -> bool {
        &&& self.algo.spec_cfb_nid() is Some
        &&& crypter_setup(self.crypter).0 == self.algo.spec_cfb_nid()->0
        &&& crypter_setup(self.crypter).2 == zeros(self.algo.spec_block_size()->0 as int)
    }

    /// Starts encrypting.
    pub fn new(algo: SymmetricAlgorithm, key: &[u8]) -> (r: Result<CfbEncryptor>)
        requires
            algo.spec_key_size() is Some ==> key@.len() == algo.spec_key_size()->0,
        ensures
            match r {
                Ok(c) => {
                    &&& c.wf()
                    &&& c@ == (CfbView { algo, key: key@, data: Seq::empty() })
                    &&& c@.sent() == Seq::<u8>::empty()
                    &&& c@.opens()
                    &&& algo.spec_cfb_nid() is Some
                },
                Err(e) => e@ == ErrorView::UnsupportedSymmetricAlgorithm(algo),
            },
    {
        let nid = match algo.cfb_nid() {
            Ok(nid) => nid,
            Err(e) => return Err(e),
        };
        let size = match algo.block_size() {
            Ok(size) => size,
            Err(e) => return Err(e),
        };
        let iv = zero_octets(size);
        match crypter_new(nid, key, iv.as_slice()) {
            Some(crypter) => {
                let r = CfbEncryptor { algo, crypter };
                assert(r@.first(0) =~= r@);
                assert(r@.sent().take(0) =~= r@.sent());
                Ok(r)
            },
            None => Err(Error::UnsupportedSymmetricAlgorithm(algo)),
        }
    }

    /// Continues the data, and returns what is to be sent now.
    #[verifier::rlimit(40)]
    pub fn push(&mut self, data: &[u8]) -> (r: Result<Vec<u8>>)
        requires
            old(self).wf(),
            old(self)@.opens(),
        ensures
            final(self).wf(),
            match r {
                Ok(out) => {
                    &&& final(self)@ == old(self)@.push(data@)
                    &&& final(self)@.sent() == old(self)@.sent() + out@
                    &&& final(self)@.opens()
                    &&& out@.len() == data@.len()
                },
                Err(e) => e@ == ErrorView::Backend,
            },
    {
        let mut out: Vec<u8> = Vec::new();
        let mut done: usize = 0;
        let ghost was = self@;
        proof {
            assert(was.push(data@.take(0)) =~= was);
            assert(was.sent() + out@ =~= was.sent());
        }
        while done < data.len()
            invariant
                self.wf(),
                self@.opens(),
                done <= data@.len(),
                out@.len() == done,
                self@ == was.push(data@.take(done as int)),
                self@.sent() == was.sent() + out@,
            decreases data@.len() - done,
        {
            let n: usize = if data.len() - done > 0x10_0000 {
                0x10_0000
            } else {
                data.len() - done
            };
            let piece = copy_range(data, done, done + n);
            let ghost before = self@;
            let ghost so_far = out@;
            match crypter_update(&mut self.crypter, piece.as_slice()) {
                Ok(more) => {
                    extend(&mut out, more.as_slice());
                    proof {
                        assert(was.sent() + so_far + more@ =~= was.sent() + (so_far + more@));
                        assert(data@.take(done as int) + piece@ =~= data@.take(done + n));
                        assert((was.data + data@.take(done as int)) + piece@ =~= was.data + (
                        data@.take(done as int) + piece@));
                        assert(self@ =~= was.push(data@.take(done + n)));
                        assert(self@.sent() == before.sent() + more@);
                        let now = self@;
                        assert forall|n: int| 0 <= n <= now.data.len() implies (
                        #[trigger] now.first(n)).sent() == now.sent().take(n) by {}
                    }
                },
                Err(_) => return Err(Error::Backend),
            }
            done = done + n;
        }
        assert(data@.take(data@.len() as int) =~= data@);
        Ok(out)
    }
}

/// Whether an error tells that the library of ciphers refused an algorithm or
/// data.
pub open spec fn cipher_refused(algo: SymmetricAlgorithm, e: ErrorView) -> bool {
    e is Backend || e == ErrorView::UnsupportedSymmetricAlgorithm(algo)
}

/// Encrypts `data` at once in feedback mode.
pub fn cfb_once(algo: SymmetricAlgorithm, key: &[u8], data: &[u8]) -> (r: Result<Vec<u8>>)
    requires
        algo.spec_key_size() is Some ==> key@.len() == algo.spec_key_size()->0,
    ensures
        match r {
            Ok(out) => {
                &&& out@ == (CfbView { algo, key: key@, data: data@ }).sent()
                &&& (CfbView { algo, key: key@, data: data@ }).opens()
                &&& out@.len() == data@.len()
                &&& algo.spec_cfb_nid() is Some
            },
            Err(e) => cipher_refused(algo, e@) && (algo.spec_cfb_nid() is None ==> e@
                == ErrorView::UnsupportedSymmetricAlgorithm(algo)),
        },
{
    let mut c = match CfbEncryptor::new(algo, key) {
        Ok(c) => c,
        Err(e) => return Err(e),
    };
    match c.push(data) {
        Ok(out) => {
            assert(c@ =~= CfbView { algo, key: key@, data: data@ });
            assert(c@.sent() =~= out@);
            Ok(out)
        },
        Err(e) => Err(e),
    }
}

/// Data is authenticated in chunks of this length.
pub const AEAD_CHUNK_SIZE: usize = 4096;

/// The octet that stands for [`AEAD_CHUNK_SIZE`].
pub const AEAD_CHUNK_OCTET: u8 = 6;

/// An authenticated cipher that has been given `data`.
#[verifier::ext_equal]
pub struct AeadView {
    pub symm: SymmetricAlgorithm,
    pub aead: AEADAlgorithm,
    pub key: Seq<u8>,
    /// What the nonces start with.
    pub prefix: Seq<u8>,
    pub aad: Seq<u8>,
    pub data: Seq<u8>,
}

impl AeadView {
    /// One chunk.
    pub open spec fn chunk(self, index: int, aad: Seq<u8>, chunk: Seq<u8>) -> Seq<u8> {
        sealed(
            self.aead.spec_nid(self.symm)->0,
            self.key,
            self.prefix + be64(index),
            aad,
            chunk,
        )
    }

    /// The data of a whole chunk.
    pub open spec fn chunk_data(self, i: int) -> Seq<u8> {
        self.data.subrange(i * AEAD_CHUNK_SIZE, (i + 1) * AEAD_CHUNK_SIZE)
    }

    /// What decrypting a chunk gives, if it is intact.
    pub open spec fn chunk_opened(self, index: int, aad: Seq<u8>, c: Seq<u8>) -> Option<Seq<u8>> {
        unsealed(
            self.aead.spec_nid(self.symm)->0,
            self.key,
            self.prefix + be64(index),
            aad,
            c,
        )
    }

    /// Whether decrypting a whole chunk gives its data.
    pub open spec fn chunk_opens(self, i: int) -> bool {
        let c = self.chunk(i, self.aad, self.chunk_data(i));
        c.len() == AEAD_CHUNK_SIZE + 16 && self.chunk_opened(i, self.aad, c) == Some(
            self.chunk_data(i),
        )
    }

    /// What is read out of chunks, of which the first one has the given
    /// index, after `done` octets have been read, and out of the last tag.
    pub open spec fn read(self, s: Seq<u8>, index: int, done: int) -> Option<Seq<u8>>
        decreases s.len(),
    {
        if s.len() < 16 {
            None
        } else if s.len() == 16 {
            if self.chunk_opened(index, self.aad + be64(done), s) == Some(Seq::<u8>::empty()) {
                Some(Seq::empty())
            } else {
                None
            }
        } else {
            let n = if s.len() - 16 < AEAD_CHUNK_SIZE + 16 {
                s.len() - 16
            } else {
                AEAD_CHUNK_SIZE + 16
            };
            match self.chunk_opened(index, self.aad, s.take(n)) {
                None => None,
                Some(p) => match self.read(s.skip(n), index + 1, done + p.len()) {
                    None => None,
                    Some(more) => Some(p + more),
                },
            }
        }
    }

    /// What is handed out while chunks are read, before the last tag is looked
    /// at or a chunk is refused.
    pub open spec fn handed_out(self, s: Seq<u8>, index: int, done: int) -> Seq<u8>
        decreases s.len(),
    {
        if s.len() <= 16 {
            Seq::empty()
        } else {
            let n = if s.len() - 16 < AEAD_CHUNK_SIZE + 16 {
                s.len() - 16
            } else {
                AEAD_CHUNK_SIZE + 16
            };
            match self.chunk_opened(index, self.aad, s.take(n)) {
                None => Seq::empty(),
                Some(p) => p + self.handed_out(s.skip(n), index + 1, done + p.len()),
            }
        }
    }

    /// Whether `last` is the chunk for the data behind the whole chunks, of
    /// which there are `k`, and `index` that of the last tag.
    pub open spec fn ends(self, last: Seq<u8>, k: int, index: int) -> bool {
        if self.data.len() % (AEAD_CHUNK_SIZE as nat) == 0 {
            last.len() == 0 && index == k
        } else {
            let rest = self.data.skip(k * AEAD_CHUNK_SIZE);
            &&& index == k + 1
            &&& last.len() == rest.len() + 16
            &&& self.chunk_opened(k, self.aad, last) == Some(rest)
        }
    }

    /// Whether this is refused in the place of the last tag.
    pub open spec fn tag_refused(self, index: int, t: Seq<u8>) -> bool {
        self.chunk_opened(index, self.aad + be64(self.data.len() as int), t) is None
    }

    /// Whether two sequences differ in the last tag and nowhere else.
    pub open spec fn retagged(a: Seq<u8>, b: Seq<u8>) -> bool {
        &&& a.len() == b.len()
        &&& a.len() >= 16
        &&& a.take(a.len() - 16) == b.take(a.len() - 16)
        &&& a != b
    }

    /// Whether what is read out of all that comes out is what was put in; and
    /// whether all that comes out is refused once the last tag is changed, after
    /// what was put in has been handed out.
    pub open spec fn opens(self) -> bool {
        let all = self.sent() + self.rest();
        &&& self.read(all, 0, 0) == Some(self.data)
        &&& forall|other: Seq<u8>| #[trigger]
            Self::retagged(all, other) ==> self.read(other, 0, 0) is None && self.handed_out(
                other,
                0,
                0,
            ) == self.data
    }

    /// The first `k` chunks.
    pub open spec fn chunks(self, k: int) -> Seq<u8>
        decreases k,
    {
        if k <= 0 {
            Seq::empty()
        } else {
            self.chunks(k - 1) + self.chunk(
                k - 1,
                self.aad,
                self.data.subrange((k - 1) * AEAD_CHUNK_SIZE, k * AEAD_CHUNK_SIZE),
            )
        }
    }

    /// The number of whole chunks.
    pub open spec fn whole(self) -> int {
        self.data.len() as int / (AEAD_CHUNK_SIZE as int)
    }

    /// What has come out so far: the whole chunks.
    pub open spec fn sent(self) -> Seq<u8> {
        self.chunks(self.whole())
    }

    /// What comes out at the end: the last chunk, if there is data for one,
    /// and a tag over the length of the data.
    pub open spec fn rest(self) -> Seq<u8> {
        let n = self.data.len() as int;
        let aad = self.aad + be64(n);
        if n % (AEAD_CHUNK_SIZE as int) == 0 {
            self.chunk(self.whole(), aad, Seq::empty())
        } else {
            self.chunk(self.whole(), self.aad, self.data.skip(self.whole() * AEAD_CHUNK_SIZE))
                + self.chunk(self.whole() + 1, aad, Seq::empty())
        }
    }

    /// Whether more data may be refused, with this error: a chunk is completed,
    /// and the cryptographic library refuses it or it is one too many.
    pub open spec fn refuses(self, more: Seq<u8>, e: ErrorView) -> bool {
        &&& self.push(more).whole() > self.whole()
        &&& e is Backend || e is TooLarge && self.push(more).whole() > MAX_CHUNKS
    }

    /// The cipher after some more data.
    pub open spec fn push(self, more: Seq<u8>) -> AeadView {
        AeadView { data: self.data + more, ..self }
    }
}

/// More data does not change that the whole chunks open.
proof fn lemma_opens_stable(v: AeadView, more: Seq<u8>, i: int)
    requires
        0 <= i,
        (i + 1) * AEAD_CHUNK_SIZE <= v.data.len(),
        v.chunk_opens(i),
    ensures
        v.push(more).chunk_opens(i),
{
    assert(v.push(more).chunk_data(i) =~= v.chunk_data(i));
}

/// The first chunks start the chunks.
proof fn lemma_chunks_start(v: AeadView, j: int, k: int)
    requires
        0 <= j <= k,
    ensures
        v.chunks(j).len() <= v.chunks(k).len(),
        v.chunks(k).take(v.chunks(j).len() as int) == v.chunks(j),
    decreases k,
{
    if j == k {
        assert(v.chunks(k).take(v.chunks(k).len() as int) =~= v.chunks(k));
    } else {
        lemma_chunks_start(v, j, k - 1);
        let a = v.chunks(j);
        let b = v.chunks(k - 1);
        assert(v.chunks(k).take(a.len() as int) =~= b.take(a.len() as int));
    }
}

/// What has come out of an authenticated cipher is continued by more data.
pub proof fn lemma_aead_grows(v: AeadView, more: Seq<u8>)
    ensures
        v.sent() + v.push(more).sent().skip(v.sent().len() as int) == v.push(more).sent(),
{
    let w = v.push(more);
    lemma_chunks_stable(v, more, v.whole());
    assert(v.whole() <= w.whole()) by (nonlinear_arith)
        requires
            v.whole() == v.data.len() as int / (AEAD_CHUNK_SIZE as int),
            w.whole() == w.data.len() as int / (AEAD_CHUNK_SIZE as int),
            v.data.len() <= w.data.len(),
    ;
    lemma_chunks_start(w, v.whole(), w.whole());
    assert(v.sent() + w.sent().skip(v.sent().len() as int) =~= w.sent());
}

/// What is read does not depend on what was put in.
pub proof fn lemma_read_same(v: AeadView, w: AeadView, s: Seq<u8>, index: int, done: int)
    requires
        v == (AeadView { data: v.data, ..w }),
    ensures
        v.read(s, index, done) == w.read(s, index, done),
    decreases s.len(),
{
    if s.len() > 16 {
        let n = if s.len() - 16 < AEAD_CHUNK_SIZE + 16 {
            s.len() - 16
        } else {
            AEAD_CHUNK_SIZE + 16
        };
        match v.chunk_opened(index, v.aad, s.take(n)) {
            None => {},
            Some(p) => lemma_read_same(v, w, s.skip(n), index + 1, done + p.len()),
        }
    }
}

/// More data does not change the whole chunks.
proof fn lemma_chunks_stable(v: AeadView, more: Seq<u8>, k: int)
    requires
        0 <= k * AEAD_CHUNK_SIZE <= v.data.len(),
    ensures
        v.push(more).chunks(k) == v.chunks(k),
    decreases k,
{
    if k > 0 {
        lemma_chunks_stable(v, more, k - 1);
        assert(v.push(more).data.subrange((k - 1) * AEAD_CHUNK_SIZE, k * AEAD_CHUNK_SIZE)
            =~= v.data.subrange((k - 1) * AEAD_CHUNK_SIZE, k * AEAD_CHUNK_SIZE));
    }
}

proof fn lemma_push_pieces(v: AeadView, data: Seq<u8>, i: int, j: int)
    requires
        0 <= i <= j <= data.len(),
    ensures
        v.push(data.take(i)).push(data.subrange(i, j)) == v.push(data.take(j)),
{
    assert((v.data + data.take(i)) + data.subrange(i, j) =~= v.data + data.take(j));
}

/// What refuses a piece of data refuses the data.
proof fn lemma_refuses_all(v: AeadView, data: Seq<u8>, i: int, j: int, e: ErrorView)
    requires
        0 <= i <= j <= data.len(),
        v.push(data.take(i)).refuses(data.subrange(i, j), e),
    ensures
        v.refuses(data, e),
{
    lemma_push_pieces(v, data, i, j);
    assert(v.data.len() <= v.push(data.take(i)).data.len());
    assert(v.push(data.take(j)).data.len() <= v.push(data).data.len());
}

/// The number of chunks that are made at most.
pub const MAX_CHUNKS: u64 = 0x7_FFFF_FFFF_FFFF;

/// An authenticated cipher.
pub struct AeadEncryptor {
    symm: SymmetricAlgorithm,
    aead: AEADAlgorithm,
    nid: i32,
    key: Vec<u8>,
    prefix: Vec<u8>,
    aad: Vec<u8>,
    index: u64,
    buffer: Vec<u8>,
    data: Ghost<Seq<u8>>,
}

impl View for AeadEncryptor {
    type V = AeadView;

    closed spec fn view(&self) -> AeadView {
        AeadView {
            symm: self.symm,
            aead: self.aead,
            key: self.key@,
            prefix: self.prefix@,
            aad: self.aad@,
            data: self.data@,
        }
    }
}

impl AeadEncryptor {
    spec fn keyed(&self) -> bool {
        &&& self.aead.spec_nid(self.symm) == Some(self.nid as int)
        &&& is_aead(self.nid as int)
        &&& self.key@.len() == aead_key_size(self.nid as int)
        &&& self.prefix@.len() + 8 == aead_nonce_size(self.nid as int)
        &&& self.aad@.len() <= 0x100
    }

    pub closed spec fn wf(&self) -> bool {
        &&& self.keyed()
        &&& self.index == self@.whole()
        &&& self.index <= MAX_CHUNKS
        &&& self.buffer@ == self.data@.skip(self.index * AEAD_CHUNK_SIZE)
        &&& forall|i: int| 0 <= i < self.index ==> #[trigger] self@.chunk_opens(i)
    }

    /// Starts encrypting.
    pub fn new(
        symm: SymmetricAlgorithm,
        aead: AEADAlgorithm,
        key: Vec<u8>,
        prefix: Vec<u8>,
        aad: Vec<u8>,
    ) -> (r: Result<AeadEncryptor>)
        requires
            symm.spec_key_size() is Some ==> key@.len() == symm.spec_key_size()->0,
            aead.spec_nonce_size() is Some ==> prefix@.len() + 8 == aead.spec_nonce_size()->0,
            aad@.len() <= 0x100,
        ensures
            match r {
                Ok(a) => {
                    &&& a.wf()
                    &&& aead.spec_nid(symm) is Some
                    &&& a@ == (AeadView {
                        symm,
                        aead,
                        key: key@,
                        prefix: prefix@,
                        aad: aad@,
                        data: Seq::empty(),
                    })
                },
                Err(e) => aead.spec_nid(symm) is None && e@ == ErrorView::UnsupportedAEADAlgorithm(
                    aead,
                ),
            },
    {
        let nid = match aead.nid(symm) {
            Ok(nid) => nid,
            Err(e) => return Err(e),
        };
        let r = AeadEncryptor {
            symm,
            aead,
            nid,
            key,
            prefix,
            aad,
            index: 0,
            buffer: Vec::new(),
            data: Ghost(Seq::empty()),
        };
        assert(r.buffer@ =~= r.data@.skip(0));
        Ok(r)
    }

    fn seal_one(&self, index: u64, aad: &[u8], chunk: &[u8]) -> (r: Result<Vec<u8>>)
        requires
            self.keyed(),
            aad@.len() <= 0x200,
            chunk@.len() <= AEAD_CHUNK_SIZE,
        ensures
            match r {
                Ok(out) => {
                    &&& out@ == self@.chunk(index as int, aad@, chunk@)
                    &&& out@.len() == chunk@.len() + 16
                    &&& self@.chunk_opened(index as int, aad@, out@) == Some(chunk@)
                    &&& forall|other: Seq<u8>|
                        other.len() == out@.len() && other.take(chunk@.len() as int) == out@.take(
                            chunk@.len() as int,
                        ) && other != out@ ==> #[trigger] self@.chunk_opened(
                            index as int,
                            aad@,
                            other,
                        ) is None
                },
                Err(e) => e@ == ErrorView::Backend,
            },
    {
        let mut nonce = to_vec(self.prefix.as_slice());
        push_be64(&mut nonce, index);
        proof {
            crate::bytes::lemma_be64_len(index as int);
        }
        match seal(self.nid, self.key.as_slice(), nonce.as_slice(), aad, chunk) {
            Some(out) => Ok(out),
            None => Err(Error::Backend),
        }
    }

    /// Takes in at most as much as fits into the current chunk.
    #[verifier::rlimit(40)]
    fn push_some(&mut self, out: &mut Vec<u8>, piece: &[u8]) -> (r: Result<()>)
        requires
            old(self).wf(),
            old(self).room() > 0,
            piece@.len() <= old(self).room(),
        ensures
            match r {
                Ok(_) => {
                    &&& final(self).wf()
                    &&& final(self)@ == old(self)@.push(piece@)
                    &&& exists|more: Seq<u8>|
                        final(out)@ == old(out)@ + more && final(self)@.sent() == old(self)@.sent()
                            + more
                },
                Err(e) => old(self)@.refuses(piece@, e@),
            },
    {
        let ghost was = self@;
        let ghost k = self.index as int;
        extend(&mut self.buffer, piece);
        proof {
            self.data@ = self.data@ + piece@;
            lemma_chunks_stable(was, piece@, k);
            assert forall|i: int| 0 <= i < k implies #[trigger] was.push(piece@).chunk_opens(
                i,
            ) by {
                assert(was.chunk_opens(i));
                lemma_opens_stable(was, piece@, i);
            }
            assert(self.buffer@ =~= self.data@.skip(k * AEAD_CHUNK_SIZE));
            assert(self@ =~= was.push(piece@));
        }
        if self.buffer.len() == AEAD_CHUNK_SIZE {
            let ghost now = self@;
            proof {
                assert(self.buffer@ =~= now.data.subrange(
                    k * AEAD_CHUNK_SIZE,
                    (k + 1) * AEAD_CHUNK_SIZE,
                ));
                assert(now.whole() == k + 1);
            }
            if self.index >= MAX_CHUNKS {
                return Err(Error::TooLarge);
            }
            match self.seal_one(self.index, self.aad.as_slice(), self.buffer.as_slice()) {
                Ok(more) => {
                    let ghost before = out@;
                    extend(out, more.as_slice());
                    proof {
                        assert(now.chunk_data(k) == self.buffer@);
                        assert(now.chunk_opens(k));
                        assert(now.chunks(k + 1) == now.chunks(k) + more@);
                        assert(now.sent() == was.sent() + more@);
                        assert(out@ == before + more@);
                    }
                    self.buffer = Vec::new();
                    self.index = self.index + 1;
                    assert(self.buffer@ =~= self.data@.skip(self.index * AEAD_CHUNK_SIZE));
                },
                Err(e) => return Err(e),
            }
        } else {
            proof {
                let none = Seq::<u8>::empty();
                assert(out@ =~= out@ + none);
                assert(self@.whole() == k);
                assert(self@.sent() =~= was.sent() + none);
            }
        }
        Ok(())
    }

    fn room_left(&self) -> (r: usize)
        requires
            self.wf(),
        ensures
            r == self.room(),
            0 < r <= AEAD_CHUNK_SIZE,
    {
        proof {
            assert(self.buffer@.len() == self.data@.len() - self.index * AEAD_CHUNK_SIZE);
        }
        AEAD_CHUNK_SIZE - self.buffer.len()
    }

    /// How much more fits into the current chunk.
    pub closed spec fn room(&self) -> int {
        AEAD_CHUNK_SIZE - self.buffer@.len()
    }

    /// Continues the data, and returns what is to be sent now.
    #[verifier::rlimit(40)]
    pub fn push(&mut self, data: &[u8]) -> (r: Result<Vec<u8>>)
        requires
            old(self).wf(),
        ensures
            old(self)@.push(data@).whole() > MAX_CHUNKS ==> r is Err,
            match r {
                Ok(out) => final(self).wf() && final(self)@ == old(self)@.push(data@) && final(
                    self)@.sent() == old(self)@.sent() + out@,
                Err(e) => old(self)@.refuses(data@, e@),
            },
    {
        let mut out: Vec<u8> = Vec::new();
        let mut done: usize = 0;
        let ghost was = self@;
        proof {
            assert(was.push(data@.take(0)) =~= was);
            assert(was.sent() + out@ =~= was.sent());
        }
        while done < data.len()
            invariant
                self.wf(),
                was == old(self)@,
                done <= data@.len(),
                self@ == was.push(data@.take(done as int)),
                self@.sent() == was.sent() + out@,
            decreases data@.len() - done,
        {
            let room: usize = self.room_left();
            let n: usize = if data.len() - done > room {
                room
            } else {
                data.len() - done
            };
            let piece = copy_range(data, done, done + n);
            let ghost before = self@;
            let ghost so_far = out@;
            assert(piece@ == data@.subrange(done as int, done + n));
            match self.push_some(&mut out, piece.as_slice()) {
                Ok(()) => (),
                Err(e) => {
                    proof {
                        lemma_refuses_all(was, data@, done as int, done + n, e@);
                    }
                    return Err(e);
                },
            }
            proof {
                lemma_push_pieces(was, data@, done as int, done + n);
                let more = choose|more: Seq<u8>|
                    out@ == so_far + more && self@.sent() == before.sent() + more;
                crate::bytes::lemma_concat_assoc(was.sent(), so_far, more);
            }
            done = done + n;
        }
        assert(data@.take(data@.len() as int) =~= data@);
        Ok(out)
    }

    /// Ends the data, and returns what is still to be sent.
    #[verifier::rlimit(40)]
    pub fn finish(self) -> (r: Result<Vec<u8>>)
        requires
            self.wf(),
        ensures
            match r {
                Ok(out) => out@ == self@.rest() && self@.opens(),
                Err(e) => e@ == ErrorView::Backend,
            },
    {
        proof {
            assert(self.buffer@.len() == self.data@.len() - self.index * AEAD_CHUNK_SIZE);
        }
        let total: u64 = self.index * 4096 + self.buffer.len() as u64;
        let mut aad = to_vec(self.aad.as_slice());
        push_be64(&mut aad, total);
        proof {
            crate::bytes::lemma_be64_len(total as int);
        }
        if self.buffer.len() == 0 {
            let none: Vec<u8> = Vec::new();
            assert(none@ =~= Seq::<u8>::empty());
            match self.seal_one(self.index, aad.as_slice(), none.as_slice()) {
                Ok(out) => {
                    proof {
                        let k = self.index as int;
                        lemma_read_tag(self@, out@, k, total as int);
                        assert(self@.data.skip(k * AEAD_CHUNK_SIZE) =~= Seq::empty());
                        lemma_reads_back(self@, out@, k);
                        assert(out@ =~= Seq::<u8>::empty() + out@);
                        assert forall|other: Seq<u8>|
                            other.len() == 16 && other != out@ implies #[trigger] self@.tag_refused(
                            k,
                            other,
                        ) by {
                            assert(other.take(0) =~= out@.take(0));
                            assert(self@.chunk_opened(k, aad@, other) is None);
                        }
                        lemma_last_tag(self@, Seq::empty(), out@, k, k);
                    }
                    Ok(out)
                },
                Err(e) => Err(e),
            }
        } else {
            let mut out = match self.seal_one(
                self.index,
                self.aad.as_slice(),
                self.buffer.as_slice(),
            ) {
                Ok(out) => out,
                Err(e) => return Err(e),
            };
            let none: Vec<u8> = Vec::new();
            assert(none@ =~= Seq::<u8>::empty());
            match self.seal_one(self.index + 1, aad.as_slice(), none.as_slice()) {
                Ok(more) => {
                    proof {
                        let last = self.buffer@;
                        let k = self.index as int;
                        lemma_read_tag(self@, more@, k + 1, total as int);
                        lemma_read_last(self@, out@, more@, last, k, k * AEAD_CHUNK_SIZE);
                        lemma_reads_back(self@, out@ + more@, k);
                        assert forall|other: Seq<u8>|
                            other.len() == 16 && other != more@ implies #[trigger] self@.tag_refused(
                            k + 1,
                            other,
                        ) by {
                            assert(other.take(0) =~= more@.take(0));
                            assert(self@.chunk_opened(k + 1, aad@, other) is None);
                        }
                        lemma_last_tag(self@, out@, more@, k, k + 1);
                    }
                    extend(&mut out, more.as_slice());
                    Ok(out)
                },
                Err(e) => Err(e),
            }
        }
    }
}

/// What is read out of the last tag.
proof fn lemma_read_tag(v: AeadView, tag: Seq<u8>, index: int, done: int)
    requires
        tag.len() == 16,
        v.chunk_opened(index, v.aad + be64(done), tag) == Some(Seq::<u8>::empty()),
    ensures
        v.read(tag, index, done) == Some(Seq::<u8>::empty()),
{
}

/// What is read out of a last chunk that is not whole.
proof fn lemma_read_last(
    v: AeadView,
    c: Seq<u8>,
    tag: Seq<u8>,
    last: Seq<u8>,
    index: int,
    done: int,
)
    requires
        0 < last.len() < AEAD_CHUNK_SIZE,
        c.len() == last.len() + 16,
        tag.len() == 16,
        v.chunk_opened(index, v.aad, c) == Some(last),
        v.read(tag, index + 1, done + last.len()) == Some(Seq::<u8>::empty()),
    ensures
        v.read(c + tag, index, done) == Some(last),
{
    let s = c + tag;
    assert(s.take(c.len() as int) =~= c);
    assert(s.skip(c.len() as int) =~= tag);
    assert(last + Seq::<u8>::empty() =~= last);
}

/// What is read out of whole chunks is their data.
proof fn lemma_reads_back(v: AeadView, tail: Seq<u8>, k: int)
    requires
        0 <= k,
        k * AEAD_CHUNK_SIZE <= v.data.len(),
        tail.len() >= 16,
        forall|i: int| 0 <= i < k ==> #[trigger] v.chunk_opens(i),
        v.read(tail, k, k * AEAD_CHUNK_SIZE) == Some(v.data.skip(k * AEAD_CHUNK_SIZE)),
    ensures
        v.read(v.chunks(k) + tail, 0, 0) == Some(v.data),
    decreases k,
{
    if k == 0 {
        assert(v.chunks(0) + tail =~= tail);
        assert(v.data.skip(0) =~= v.data);
    } else {
        let i = k - 1;
        assert(v.chunk_opens(i));
        let p = v.chunk_data(i);
        let c = v.chunk(i, v.aad, p);
        let s = c + tail;
        assert(s.take(c.len() as int) =~= c);
        assert(s.skip(c.len() as int) =~= tail);
        assert(i * AEAD_CHUNK_SIZE + p.len() == k * AEAD_CHUNK_SIZE);
        assert(v.read(s, i, i * AEAD_CHUNK_SIZE) == Some(
            p + v.data.skip(k * AEAD_CHUNK_SIZE),
        ));
        assert(p + v.data.skip(k * AEAD_CHUNK_SIZE) =~= v.data.skip(i * AEAD_CHUNK_SIZE));
        lemma_reads_back(v, s, i);
        assert(v.chunks(k) + tail =~= v.chunks(i) + s);
    }
}

/// What is handed out of whole chunks is their data, and they are refused if
/// what follows them is.
proof fn lemma_refused_back(v: AeadView, tail: Seq<u8>, k: int)
    requires
        0 <= k,
        k * AEAD_CHUNK_SIZE <= v.data.len(),
        tail.len() >= 16,
        forall|i: int| 0 <= i < k ==> #[trigger] v.chunk_opens(i),
        v.read(tail, k, k * AEAD_CHUNK_SIZE) is None,
        v.handed_out(tail, k, k * AEAD_CHUNK_SIZE) == v.data.skip(k * AEAD_CHUNK_SIZE),
    ensures
        v.read(v.chunks(k) + tail, 0, 0) is None,
        v.handed_out(v.chunks(k) + tail, 0, 0) == v.data,
    decreases k,
{
    if k == 0 {
        assert(v.chunks(0) + tail =~= tail);
        assert(v.data.skip(0) =~= v.data);
    } else {
        let i = k - 1;
        assert(v.chunk_opens(i));
        let p = v.chunk_data(i);
        let c = v.chunk(i, v.aad, p);
        let s = c + tail;
        assert(s.take(c.len() as int) =~= c);
        assert(s.skip(c.len() as int) =~= tail);
        assert(i * AEAD_CHUNK_SIZE + p.len() == k * AEAD_CHUNK_SIZE);
        assert(p + v.data.skip(k * AEAD_CHUNK_SIZE) =~= v.data.skip(i * AEAD_CHUNK_SIZE));
        lemma_refused_back(v, s, i);
        assert(v.chunks(k) + tail =~= v.chunks(i) + s);
    }
}

/// What follows the whole chunks is refused with another tag, after the data of
/// a last chunk that is not whole.
proof fn lemma_other_tag(v: AeadView, last: Seq<u8>, t: Seq<u8>, k: int, index: int)
    requires
        k == v.whole(),
        t.len() == 16,
        v.tag_refused(index, t),
        v.ends(last, k, index),
    ensures
        v.read(last + t, k, k * AEAD_CHUNK_SIZE) is None,
        v.handed_out(last + t, k, k * AEAD_CHUNK_SIZE) == v.data.skip(k * AEAD_CHUNK_SIZE),
{
    let total = v.data.len() as int;
    let rest = v.data.skip(k * AEAD_CHUNK_SIZE);
    let tail = last + t;
    assert(v.read(t, index, total) is None);
    if last.len() == 0 {
        assert(tail =~= t);
        assert(rest =~= Seq::<u8>::empty());
    } else {
        assert(tail.take(last.len() as int) =~= last);
        assert(tail.skip(last.len() as int) =~= t);
        assert(v.handed_out(t, index, total) =~= Seq::<u8>::empty());
        assert(rest + Seq::<u8>::empty() =~= rest);
        assert(k * AEAD_CHUNK_SIZE + rest.len() == total);
    }
}

/// What stands in the place of the last tag.
proof fn lemma_retagged(start: Seq<u8>, tag: Seq<u8>, other: Seq<u8>) -> (t: Seq<u8>)
    requires
        tag.len() == 16,
        AeadView::retagged(start + tag, other),
    ensures
        other == start + t,
        t.len() == 16,
        t != tag,
{
    let all = start + tag;
    let n = start.len() as int;
    let t = other.skip(n);
    assert(all.take(n) =~= start);
    assert(other =~= start + t);
    t
}

/// Whatever stands in the place of the last tag is refused.
#[verifier::spinoff_prover]
proof fn lemma_last_tag(v: AeadView, last: Seq<u8>, tag: Seq<u8>, k: int, index: int)
    requires
        k == v.whole(),
        tag.len() == 16,
        v.rest() == last + tag,
        forall|i: int| 0 <= i < k ==> #[trigger] v.chunk_opens(i),
        forall|t: Seq<u8>|
            t.len() == 16 && t != tag ==> #[trigger] v.tag_refused(index, t),
        v.ends(last, k, index),
    ensures
        forall|other: Seq<u8>| #[trigger]
            AeadView::retagged(v.sent() + v.rest(), other) ==> v.read(other, 0, 0) is None
                && v.handed_out(other, 0, 0) == v.data,
{
    let all = v.sent() + v.rest();
    let start = v.sent() + last;
    assert(all =~= start + tag);
    assert forall|other: Seq<u8>| #[trigger] AeadView::retagged(all, other) implies v.read(
        other,
        0,
        0,
    ) is None && v.handed_out(other, 0, 0) == v.data by {
        let t = lemma_retagged(start, tag, other);
        assert(v.tag_refused(index, t));
        lemma_other_tag(v, last, t, k, index);
        lemma_refused_back(v, last + t, k);
        crate::bytes::lemma_concat_assoc(v.sent(), last, t);
    }
}

/// What is handed out does not depend on what was put in.
pub proof fn lemma_handed_out_same(v: AeadView, w: AeadView, s: Seq<u8>, index: int, done: int)
    requires
        v == (AeadView { data: v.data, ..w }),
    ensures
        v.handed_out(s, index, done) == w.handed_out(s, index, done),
    decreases s.len(),
{
    if s.len() > 16 {
        let n = if s.len() - 16 < AEAD_CHUNK_SIZE + 16 {
            s.len() - 16
        } else {
            AEAD_CHUNK_SIZE + 16
        };
        match v.chunk_opened(index, v.aad, s.take(n)) {
            None => {},
            Some(p) => lemma_handed_out_same(v, w, s.skip(n), index + 1, done + p.len()),
        }
    }
}

/// The associated data of an encrypted data packet.
pub open spec fn seip2_aad(symm: SymmetricAlgorithm, aead: AEADAlgorithm) -> Seq<u8> {
    seq![0xD2u8, 2, symm.spec_octet(), aead.spec_octet(), AEAD_CHUNK_OCTET]
}

/// The key and the nonces' start that are derived for the content of an
/// encrypted data packet.
pub open spec fn seip2_derived(
    symm: SymmetricAlgorithm,
    aead: AEADAlgorithm,
    salt: Seq<u8>,
    session_key: Seq<u8>,
) -> Option<Seq<u8>> {
    hkdf(
        session_key,
        salt,
        seip2_aad(symm, aead),
        symm.spec_key_size()->0 + aead.spec_nonce_size()->0 - 8,
    )
}

/// The cipher that the content of an encrypted data packet is put through.
pub open spec fn seip2_schedule(
    symm: SymmetricAlgorithm,
    aead: AEADAlgorithm,
    salt: Seq<u8>,
    session_key: Seq<u8>,
) -> AeadView {
    let aad = seip2_aad(symm, aead);
    let k = symm.spec_key_size()->0 as int;
    let derived = seip2_derived(symm, aead, salt, session_key)->0;
    AeadView {
        symm,
        aead,
        key: derived.take(k),
        prefix: derived.skip(k),
        aad,
        data: Seq::empty(),
    }
}

/// Why there is no cipher for the content of an encrypted data packet.
pub open spec fn seip2_error(
    symm: SymmetricAlgorithm,
    aead: AEADAlgorithm,
    salt: Seq<u8>,
    session_key: Seq<u8>,
) -> Option<ErrorView> {
    if symm.spec_key_size() is None {
        Some(ErrorView::UnsupportedSymmetricAlgorithm(symm))
    } else if aead.spec_nid(symm) is None {
        Some(ErrorView::UnsupportedAEADAlgorithm(aead))
    } else if seip2_derived(symm, aead, salt, session_key) is None {
        Some(ErrorView::Backend)
    } else {
        None
    }
}

/// Derives the cipher that the content of an encrypted data packet is put
/// through.
#[verifier::rlimit(40)]
pub fn schedule(
    symm: SymmetricAlgorithm,
    aead: AEADAlgorithm,
    salt: &[u8],
    session_key: &[u8],
) -> (r: Result<AeadEncryptor>)
    requires
        salt@.len() == 32,
        session_key@.len() <= 32,
    ensures
        match r {
            Ok(a) => a.wf() && a@ == seip2_schedule(symm, aead, salt@, session_key@)
                && seip2_error(symm, aead, salt@, session_key@) is None,
            Err(e) => seip2_error(symm, aead, salt@, session_key@) == Some(e@),
        },
{
    let k = match symm.key_size() {
        Ok(k) => k,
        Err(e) => return Err(e),
    };
    match aead.nid(symm) {
        Ok(_) => (),
        Err(e) => return Err(e),
    }
    let n = match aead.nonce_size() {
        Ok(n) => n,
        Err(e) => return Err(e),
    };
    let mut aad: Vec<u8> = Vec::new();
    aad.push(0xD2);
    aad.push(2);
    aad.push(symm.octet());
    aad.push(aead.octet());
    aad.push(AEAD_CHUNK_OCTET);
    assert(aad@ =~= seip2_aad(symm, aead));
    let derived = match hkdf_sha256(session_key, salt, aad.as_slice(), k + (n - 8)) {
        Ok(derived) => derived,
        Err(_) => return Err(Error::Backend),
    };
    let key = copy_range(derived.as_slice(), 0, k);
    let prefix = copy_range(derived.as_slice(), k, derived.len());
    assert(key@ =~= derived@.take(k as int));
    assert(prefix@ =~= derived@.skip(k as int));
    AeadEncryptor::new(symm, aead, key, prefix, aad)
}

} // verus!
