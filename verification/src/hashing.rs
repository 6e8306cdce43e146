//! Message digests, and what is hashed for signatures.

use vstd::prelude::*;

use crate::backend::{
    digest, digest_size, hasher_clone, hasher_data, hasher_finish, hasher_new, hasher_nid,
    hasher_update,
};
use crate::bytes::extend;
use crate::error::{Error, ErrorView, Result};
use crate::textfilter::{normalize, normalize_text};
use crate::types::HashAlgorithm;

verus! {

/// The digest of `data` under `algo`.
pub open spec fn hash_of(algo: HashAlgorithm, data: Seq<u8>) -> Seq<u8> {
    digest(algo.spec_nid()->0, data)
}

/// The length of the digests of an algorithm, if it is a known one.
pub open spec fn hash_size(algo: HashAlgorithm) -> nat {
    digest_size(algo.spec_nid()->0)
}

/// Whether an error tells that the library of hashes refused an algorithm or
/// data.
pub open spec fn hash_refused(algo: HashAlgorithm, e: ErrorView) -> bool {
    e is Backend || e == ErrorView::UnsupportedHashAlgorithm(algo)
}

/// A digest in the making: its algorithm, and what has been hashed.
#[verifier::ext_equal]
pub struct ContextView {
    pub algo: HashAlgorithm,
    pub data: Seq<u8>,
}

/// A digest in the making.
pub struct Context {
    algo: HashAlgorithm,
    hasher: openssl::hash::Hasher,
}

impl View for Context {
    type V = ContextView;

    closed spec fn view(&self) -> ContextView {
        ContextView { algo: self.algo, data: hasher_data(self.hasher) }
    }
}

impl Context {
    /// The hasher computes the algorithm.
    pub closed spec fn wf(&self) -> bool {
        self.algo.spec_nid() == Some(hasher_nid(self.hasher))
    }

    /// Starts a digest.
    pub fn new(algo: HashAlgorithm) -> (r: Result<Context>)
        ensures
            match r {
                Ok(c) => c.wf() && c@ == (ContextView { algo, data: Seq::empty() })
                    && algo.spec_nid() is Some,
                Err(e) => e@ == ErrorView::UnsupportedHashAlgorithm(algo),
            },
    {
        match algo.nid() {
            Ok(nid) => match hasher_new(nid) {
                Some(hasher) => Ok(Context { algo, hasher }),
                None => Err(Error::UnsupportedHashAlgorithm(algo)),
            },
            Err(e) => Err(e),
        }
    }

    /// Returns the algorithm.
    pub fn algo(&self) -> (r: HashAlgorithm)
        ensures
            r == self@.algo,
    {
        self.algo
    }

    /// Hashes some more data.
    pub fn update(&mut self, data: &[u8]) -> (r: Result<()>)
        requires
            old(self).wf(),
        ensures
            final(self).wf(),
            final(self)@.algo == old(self)@.algo,
            match r {
                Ok(_) => final(self)@.data == old(self)@.data + data@,
                Err(e) => e@ == ErrorView::Backend,
            },
    {
        match hasher_update(&mut self.hasher, data) {
            Ok(()) => Ok(()),
            Err(_) => Err(Error::Backend),
        }
    }

    /// Copies the digest in the making.
    pub fn duplicate(&self) -> (r: Context)
        requires
            self.wf(),
        ensures
            r.wf(),
            r@ == self@,
    {
        Context { algo: self.algo, hasher: hasher_clone(&self.hasher) }
    }

    /// Returns the digest.
    pub fn finish(self) -> (r: Result<Vec<u8>>)
        requires
            self.wf(),
        ensures
            match r {
                Ok(d) => d@ == hash_of(self@.algo, self@.data) && d@.len() == hash_size(self@.algo),
                Err(e) => e@ == ErrorView::Backend,
            },
    {
        let mut hasher = self.hasher;
        match hasher_finish(&mut hasher) {
            Ok(d) => Ok(d),
            Err(_) => Err(Error::Backend),
        }
    }
}

/// Hashes `data` at once.
pub fn hash_once(algo: HashAlgorithm, data: &[u8]) -> (r: Result<Vec<u8>>)
    ensures
        match r {
            Ok(d) => d@ == hash_of(algo, data@) && d@.len() == hash_size(algo) && algo.spec_nid()
                is Some,
            Err(e) => hash_refused(algo, e@) && (algo.spec_nid() is None ==> e@
                == ErrorView::UnsupportedHashAlgorithm(algo)),
        },
{
    match Context::new(algo) {
        Ok(context) => {
            let mut c = context;
            match c.update(data) {
                Ok(()) => {
                    assert(c@.data =~= data@);
                    c.finish()
                },
                Err(e) => Err(e),
            }
        },
        Err(e) => Err(e),
    }
}

/// What has been hashed for a signature.
#[verifier::ext_equal]
pub struct HashingView {
    /// Whether line endings are normalized.
    pub text: bool,
    /// Whether the last octet was a CR.
    pub cr: bool,
    /// The salt that was hashed first.
    pub salt: Seq<u8>,
    pub algo: HashAlgorithm,
    pub data: Seq<u8>,
}

impl HashingView {
    /// A new context, with its salt hashed.
    pub open spec fn start(text: bool, salt: Seq<u8>, algo: HashAlgorithm) -> HashingView {
        HashingView { text, cr: false, salt, algo, data: salt }
    }

    /// The context after some more data.
    pub open spec fn push(self, more: Seq<u8>) -> HashingView {
        if self.text {
            HashingView {
                cr: normalize(self.cr, more).0,
                data: self.data + normalize(self.cr, more).1,
                ..self
            }
        } else {
            HashingView { data: self.data + more, ..self }
        }
    }
}

/// A context that hashes either octets or text.
pub struct HashingMode {
    text: bool,
    cr: bool,
    salt: Vec<u8>,
    context: Context,
}

impl View for HashingMode {
    type V = HashingView;

    closed spec fn view(&self) -> HashingView {
        HashingView {
            text: self.text,
            cr: self.cr,
            salt: self.salt@,
            algo: self.context@.algo,
            data: self.context@.data,
        }
    }
}

impl HashingMode {
    pub closed spec fn wf(&self) -> bool {
        self.context.wf()
    }

    /// Starts hashing in a new context, with the salt.
    pub fn new(text: bool, salt: Vec<u8>, context: Context) -> (r: Result<HashingMode>)
        requires
            context.wf(),
            context@.data == Seq::<u8>::empty(),
        ensures
            match r {
                Ok(h) => h.wf() && h@ == HashingView::start(text, salt@, context@.algo),
                Err(e) => e@ == ErrorView::Backend && salt@.len() > 0,
            },
    {
        let mut context = context;
        if salt.len() > 0 {
            match context.update(salt.as_slice()) {
                Ok(()) => (),
                Err(e) => return Err(e),
            }
        }
        let r = HashingMode { text, cr: false, salt, context };
        assert(r@.data =~= r@.salt);
        Ok(r)
    }

    /// Returns the algorithm.
    pub fn algo(&self) -> (r: HashAlgorithm)
        ensures
            r == self@.algo,
    {
        self.context.algo()
    }

    /// Returns the salt.
    pub fn salt(&self) -> (r: &Vec<u8>)
        ensures
            r@ == self@.salt,
    {
        &self.salt
    }

    /// Hashes some more data.
    pub fn update(&mut self, data: &[u8]) -> (r: Result<()>)
        requires
            old(self).wf(),
        ensures
            final(self).wf(),
            match r {
                Ok(_) => final(self)@ == old(self)@.push(data@),
                Err(e) => e@ == ErrorView::Backend,
            },
    {
        if self.text {
            let (cr, out): (bool, Vec<u8>) = normalize_text(self.cr, data);
            let r = self.context.update(out.as_slice());
            self.cr = cr;
            r
        } else {
            self.context.update(data)
        }
    }

    /// Copies the digest in the making.
    pub fn context(&self) -> (r: Context)
        requires
            self.wf(),
        ensures
            r.wf(),
            r@ == (ContextView { algo: self@.algo, data: self@.data }),
    {
        self.context.duplicate()
    }
}

/// `s`, over and over, up to `n` octets.
pub open spec fn cycled(s: Seq<u8>, n: int) -> Seq<u8> {
    Seq::new(n as nat, |i: int| s[i % (s.len() as int)])
}

/// The number of octets that the default way of deriving a key from a
/// password hashes.
pub const S2K_COUNT: usize = 0x3E0_0000;

/// The octet that stands for [`S2K_COUNT`].
pub const S2K_CODED_COUNT: u8 = 0xFF;

/// The key that is derived from a password by the iterated and salted
/// method.
pub open spec fn s2k(salt: Seq<u8>, password: Seq<u8>, key_size: int) -> Seq<u8> {
    let s = salt + password;
    hash_of(
        HashAlgorithm::SHA256,
        cycled(
            s,
            if s.len() < S2K_COUNT {
                S2K_COUNT as int
            } else {
                s.len() as int
            },
        ),
    ).take(key_size)
}

/// The specifier of the iterated and salted method.
pub open spec fn s2k_specifier(salt: Seq<u8>) -> Seq<u8> {
    seq![3u8, HashAlgorithm::SHA256.spec_octet()] + salt + seq![S2K_CODED_COUNT]
}

proof fn lemma_cycled_grows(s: Seq<u8>, done: int, n: int)
    requires
        s.len() > 0,
        0 <= done,
        done % (s.len() as int) == 0,
        0 <= n <= s.len(),
    ensures
        cycled(s, done) + s.take(n) == cycled(s, done + n),
{
    assert forall|i: int| 0 <= i < done + n implies (cycled(s, done) + s.take(n))[i] == cycled(
        s,
        done + n,
    )[i] by {
        if i >= done {
            let l = s.len() as int;
            let k = i - done;
            vstd::arithmetic::div_mod::lemma_mod_adds(done, k, l);
            vstd::arithmetic::div_mod::lemma_small_mod(k as nat, l as nat);
            if k < l {
                vstd::arithmetic::div_mod::lemma_add_mod_noop(done, k, l);
            }
        }
    }
    assert(cycled(s, done) + s.take(n) =~= cycled(s, done + n));
}

proof fn lemma_next_multiple(done: int, l: int)
    requires
        0 <= done,
        l > 0,
        done % l == 0,
    ensures
        (done + l) % l == 0,
{
    vstd::arithmetic::div_mod::lemma_mod_add_multiples_vanish(done, l);
}

/// Derives a key from a password by the iterated and salted method.
pub fn derive_key(salt: &[u8], password: &[u8], key_size: usize) -> (r: Result<Vec<u8>>)
    requires
        salt@.len() == 8,
        key_size <= 32,
    ensures
        match r {
            Ok(key) => key@ == s2k(salt@, password@, key_size as int) && key@.len() == key_size,
            Err(e) => hash_refused(HashAlgorithm::SHA256, e@),
        },
{
    let mut s: Vec<u8> = Vec::new();
    extend(&mut s, salt);
    extend(&mut s, password);
    assert(s@ =~= salt@ + password@);
    let count: usize = if s.len() < S2K_COUNT {
        S2K_COUNT
    } else {
        s.len()
    };
    let mut context = match Context::new(HashAlgorithm::SHA256) {
        Ok(context) => context,
        Err(e) => return Err(e),
    };
    let mut done: usize = 0;
    proof {
        assert(context@.data =~= cycled(s@, 0));
    }
    while done < count
        invariant
            s@.len() >= 8,
            s@.len() <= count,
            done <= count,
            done < count ==> done % (s@.len() as usize) == 0,
            context.wf(),
            context@.algo == HashAlgorithm::SHA256,
            context@.data == cycled(s@, done as int),
        decreases count - done,
    {
        let n: usize = if count - done < s.len() {
            count - done
        } else {
            s.len()
        };
        let updated = if n == s.len() {
            assert(s@.take(n as int) =~= s@);
            context.update(s.as_slice())
        } else {
            let piece = crate::bytes::copy_range(s.as_slice(), 0, n);
            assert(piece@ =~= s@.take(n as int));
            context.update(piece.as_slice())
        };
        match updated {
            Ok(()) => (),
            Err(e) => return Err(e),
        }
        proof {
            lemma_cycled_grows(s@, done as int, n as int);
            lemma_next_multiple(done as int, s@.len() as int);
        }
        done = done + n;
    }
    match context.finish() {
        Ok(d) => {
            let key = crate::bytes::copy_range(d.as_slice(), 0, key_size);
            assert(key@ =~= d@.take(key_size as int));
            Ok(key)
        },
        Err(e) => Err(e),
    }
}

} // verus!
