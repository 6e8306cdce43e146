//! The part of a streaming signer that hashes data and makes signatures.

use vstd::prelude::*;

use crate::backend::seconds_since_epoch;
use crate::bytes::to_vec;
use crate::crypto::{AnySigner, SignatureView};
use crate::error::{ErrorView, Result};
use crate::framing::{packet, Tag};
use crate::hashing::{hash_of, Context, HashingMode, HashingView};
use crate::key::{Fingerprint, FingerprintView, KeyView};
use crate::signature::{
    fingerprint_views, params_of, SignatureBuilder, SignatureParams, TemplateView,
};
use crate::types::HashAlgorithm;

verus! {

/// What becomes of the signed data.
#[derive(Clone, Copy, Debug, PartialEq, Eq, Structural)]
pub enum SignatureMode {
    /// It stands between one-pass signatures and signatures.
    Inline,
    /// It is left out.
    Detached,
    /// It stands before the signatures, readable without any software.
    Cleartext,
}

/// A signer, with the hash algorithm and the salt that it uses.
#[verifier::ext_equal]
pub struct EntryView {
    pub signer: AnySigner,
    pub key: KeyView,
    pub algo: HashAlgorithm,
    pub salt: Seq<u8>,
}

/// A signer, with the hash algorithm and the salt that it uses.
pub struct Entry {
    pub signer: AnySigner,
    pub algo: HashAlgorithm,
    pub salt: Vec<u8>,
}

impl View for Entry {
    type V = EntryView;

    open spec fn view(&self) -> EntryView {
        EntryView {
            signer: self.signer,
            key: self.signer.0.spec_public(),
            algo: self.algo,
            salt: self.salt@,
        }
    }
}

/// The signers of a vector.
pub open spec fn entry_views(v: Seq<Entry>) -> Seq<EntryView> {
    v.map_values(|e: Entry| e@)
}

/// The hash contexts of a vector.
pub open spec fn hashing_views(v: Seq<HashingMode>) -> Seq<HashingView> {
    v.map_values(|h: HashingMode| h@)
}

/// What signatures are made with.
#[verifier::ext_equal]
pub struct SigningView {
    pub signers: Seq<EntryView>,
    pub mode: SignatureMode,
    pub template: TemplateView,
    pub creation_time: Option<int>,
    pub recipients: Seq<FingerprintView>,
    pub hashes: Seq<HashingView>,
    /// How much data has been hashed, modulo two to the power of 64.
    pub position: u64,
}

/// The first of the contexts that serves a signer: for a version 4 key one
/// without a salt and with the algorithm, for a version 6 key the one with
/// the salt.
pub open spec fn serving(hashes: Seq<HashingView>, e: EntryView) -> int
    decreases hashes.len(),
{
    if hashes.len() == 0 {
        0
    } else if serves(hashes[0], e) {
        0
    } else {
        1 + serving(hashes.skip(1), e)
    }
}

/// Whether a context serves a signer.
pub open spec fn serves(h: HashingView, e: EntryView) -> bool {
    if e.key.fingerprint.version == 4 {
        h.salt.len() == 0 && h.algo == e.algo
    } else {
        h.salt == e.salt
    }
}

/// The number of positions that can be told apart.
pub const POSITIONS: u128 = 0x1_0000_0000_0000_0000;

/// The time for a signature, and its numbers.
pub type Outcome = (int, SignatureView);

impl SigningView {
    /// The signer after some more data.
    pub open spec fn push(self, more: Seq<u8>) -> SigningView {
        SigningView {
            hashes: self.hashes.map_values(|h: HashingView| h.push(more)),
            position: ((self.position + more.len()) % (POSITIONS as int)) as u64,
            ..self
        }
    }

    /// What the signature of a signer is determined by, but for the digest
    /// and the numbers.
    pub open spec fn params(self, i: int, time: int) -> SignatureParams {
        SignatureParams {
            template: self.template,
            key: self.signers[i].key,
            algo: self.signers[i].algo,
            salt: self.signers[i].salt,
            time,
            recipients: self.recipients,
        }
    }

    /// What a signer signs.
    pub open spec fn digest(self, i: int, time: int) -> Seq<u8> {
        hash_of(
            self.signers[i].algo,
            self.hashes[serving(self.hashes, self.signers[i])].data + self.params(
                i,
                time,
            ).trailer(),
        )
    }

    /// The signature packet of a signer, given the creation time and the
    /// numbers.
    pub open spec fn signature(self, i: int, time: int, sig: SignatureView) -> Seq<u8> {
        packet(Tag::Signature, self.params(i, time).body(self.digest(i, time), sig))
    }

    /// Whether the outcome is a possible answer of the signer at `i`.
    pub open spec fn may_sign(self, i: int, outcome: Outcome) -> bool {
        &&& self.params(i, outcome.0).time_fits()
        &&& self.params(i, outcome.0).areas_fit()
        &&& self.params(i, outcome.0).packs(self.digest(i, outcome.0), outcome.1)
        &&& self.creation_time is Some ==> outcome.0 == self.creation_time->0
        &&& self.signers[i].signer.0.signs(
            self.signers[i].algo,
            self.digest(i, outcome.0),
            outcome.1,
        )
    }

    /// Whether the outcomes are possible answers of the signers, those of the
    /// last signers first.
    pub open spec fn may_emit(self, outcomes: Seq<Outcome>) -> bool {
        &&& outcomes.len() == self.signers.len()
        &&& forall|j: int|
            0 <= j < outcomes.len() ==> self.may_sign(
                outcomes.len() - 1 - j,
                #[trigger] outcomes[j],
            )
    }

    /// Whether making the signature of the signer at `i` may fail with this
    /// error: the time or the areas do not fit, the cryptographic library
    /// refuses to hash, the signer declines, or the numbers that it gives do
    /// not fit.
    pub open spec fn may_refuse(self, i: int, time: int, error: ErrorView) -> bool {
        let p = self.params(i, time);
        let algo = self.signers[i].algo;
        let digest = self.digest(i, time);
        &&& self.creation_time is Some ==> time == self.creation_time->0
        &&& if !p.time_fits() {
            error == ErrorView::InvalidArgument("Time exceeds u32 epoch"@)
        } else if !p.areas_fit() {
            error == ErrorView::TooLarge
        } else {
            ||| error == ErrorView::Backend
            ||| self.signers[i].signer.0.declines(algo, digest, error)
            ||| error == ErrorView::TooLarge && exists|sig: SignatureView|
                #[trigger] self.signers[i].signer.0.signs(algo, digest, sig) && !p.packs(
                    digest,
                    sig,
                )
        }
    }

    /// The same, with the signer at `i` in another state.
    pub open spec fn renewed(self, i: int, signer: AnySigner) -> SigningView {
        SigningView {
            signers: self.signers.update(i, EntryView { signer, ..self.signers[i] }),
            ..self
        }
    }

    /// Whether the other is the same, but for the states of the signers.
    pub open spec fn alike(self, other: SigningView) -> bool {
        &&& other == (SigningView { signers: other.signers, ..self })
        &&& other.signers.len() == self.signers.len()
        &&& forall|i: int|
            0 <= i < self.signers.len() ==> #[trigger] other.signers[i] == (EntryView {
                signer: other.signers[i].signer,
                ..self.signers[i]
            })
    }

    /// Whether every signer has a version that is known, a digest that is
    /// long enough, and a context that serves it.
    pub open spec fn ready(self) -> bool {
        &&& self.hashes.len() == self.signers.len()
        &&& forall|i: int|
            0 <= i < self.signers.len() ==> {
                let e = #[trigger] self.signers[i];
                &&& e.key.fingerprint.version == 4 || e.key.fingerprint.version == 6
                &&& e.salt.len() <= 255
                &&& e.algo.spec_nid() is Some
                &&& serves(self.hashes[i], e)
                &&& self.hashes[i].algo == e.algo
                &&& forall|j: int|
                    0 <= j < self.hashes.len() ==> (#[trigger] self.hashes[j]).algo == e.algo
            }
    }
}

/// What signatures are made with.
pub struct Signing {
    pub signers: Vec<Entry>,
    pub mode: SignatureMode,
    pub template: SignatureBuilder,
    pub creation_time: Option<i64>,
    pub recipients: Vec<Fingerprint>,
    pub hashes: Vec<HashingMode>,
    /// How much data has been hashed.
    pub position: u64,
}

impl View for Signing {
    type V = SigningView;

    open spec fn view(&self) -> SigningView {
        SigningView {
            signers: entry_views(self.signers@),
            mode: self.mode,
            template: self.template@,
            creation_time: match self.creation_time {
                Some(t) => Some(t as int),
                None => None,
            },
            recipients: fingerprint_views(self.recipients@),
            hashes: hashing_views(self.hashes@),
            position: self.position,
        }
    }
}

/// A context that serves a signer is found if there is one.
pub proof fn lemma_serving(hashes: Seq<HashingView>, e: EntryView, i: int)
    requires
        0 <= i < hashes.len(),
        serves(hashes[i], e),
    ensures
        0 <= serving(hashes, e) <= i,
        serves(hashes[serving(hashes, e)], e),
    decreases i,
{
    if !serves(hashes[0], e) {
        assert(hashes.skip(1)[i - 1] == hashes[i]);
        lemma_serving(hashes.skip(1), e, i - 1);
        assert(hashes.skip(1)[serving(hashes.skip(1), e)] == hashes[serving(hashes, e)]);
    }
}

/// Where no context up to `i` serves a signer, but that at `i` does, it is
/// the first.
proof fn lemma_serving_first(hashes: Seq<HashingView>, e: EntryView, i: int)
    requires
        0 <= i < hashes.len(),
        serves(hashes[i], e),
        forall|j: int| 0 <= j < i ==> !serves(#[trigger] hashes[j], e),
    ensures
        serving(hashes, e) == i,
    decreases i,
{
    if i > 0 {
        assert(!serves(hashes[0], e));
        assert(hashes.skip(1)[i - 1] == hashes[i]);
        assert forall|j: int| 0 <= j < i - 1 implies !serves(
            #[trigger] hashes.skip(1)[j],
            e,
        ) by {
            assert(hashes.skip(1)[j] == hashes[j + 1]);
        }
        lemma_serving_first(hashes.skip(1), e, i - 1);
    }
}

/// More data keeps a signer ready.
pub proof fn lemma_push_keeps_ready(s: SigningView, more: Seq<u8>)
    requires
        s.ready(),
    ensures
        s.push(more).ready(),
{
    let t = s.push(more);
    assert forall|i: int| 0 <= i < t.signers.len() implies {
        let e = #[trigger] t.signers[i];
        &&& e.key.fingerprint.version == 4 || e.key.fingerprint.version == 6
        &&& e.salt.len() <= 255
        &&& e.algo.spec_nid() is Some
        &&& serves(t.hashes[i], e)
        &&& t.hashes[i].algo == e.algo
        &&& forall|j: int|
            0 <= j < t.hashes.len() ==> (#[trigger] t.hashes[j]).algo == e.algo
    } by {
        let e = s.signers[i];
        assert(t.hashes[i] == s.hashes[i].push(more));
        assert forall|j: int| 0 <= j < t.hashes.len() implies (#[trigger] t.hashes[j]).algo
            == e.algo by {
            assert(t.hashes[j] == s.hashes[j].push(more));
            assert(s.hashes[j].algo == e.algo);
        }
    }
}

impl Signing {
    pub open spec fn wf(&self) -> bool {
        forall|i: int| 0 <= i < self.hashes@.len() ==> (#[trigger] self.hashes@[i]).wf()
    }

    /// Hashes some more data for every signature.
    #[verifier::rlimit(40)]
    pub fn update(&mut self, data: &[u8]) -> (r: Result<()>)
        requires
            old(self).wf(),
        ensures
            match r {
                Ok(_) => final(self).wf() && final(self)@ == old(self)@.push(data@),
                Err(e) => e@ == ErrorView::Backend && old(self)@.hashes.len() > 0 && data@.len()
                    > 0,
            },
    {
        if data.len() == 0 {
            proof {
                assert(data@ =~= Seq::<u8>::empty());
                crate::laws::lemma_signing_nothing(self@);
            }
            return Ok(());
        }
        let ghost was = self@;
        let ghost before = self.hashes@;
        let mut i: usize = 0;
        while i < self.hashes.len()
            invariant
                self.wf(),
                i <= self.hashes@.len(),
                self.hashes@.len() == before.len(),
                was == old(self)@,
                data@.len() > 0,
                was.hashes == hashing_views(before),
                entry_views(self.signers@) == was.signers,
                self.mode == was.mode,
                self.template@ == was.template,
                self@.creation_time == was.creation_time,
                self@.recipients == was.recipients,
                self.position == was.position,
                forall|j: int| 0 <= j < i ==> (#[trigger] self.hashes@[j])@ == before[j]@.push(data@),
                forall|j: int| i <= j < before.len() ==> #[trigger] self.hashes@[j] == before[j],
            decreases self.hashes@.len() - i,
        {
            let ghost hs = self.hashes@;
            let r = self.hashes[i].update(data);
            match r {
                Ok(()) => (),
                Err(e) => return Err(e),
            }
            proof {
                assert(self.hashes@.len() == hs.len());
                assert forall|j: int| 0 <= j < self.hashes@.len() implies (
                #[trigger] self.hashes@[j]).wf() by {
                    if j != i {
                        assert(self.hashes@[j] == hs[j]);
                    }
                }
            }
            i = i + 1;
        }
        self.position = self.position.wrapping_add(data.len() as u64);
        proof {
            assert(self@.hashes =~= was.push(data@).hashes);
            assert(self@.position == was.push(data@).position);
            assert(self@ =~= was.push(data@));
        }
        Ok(())
    }

    /// Returns how much data has been hashed.
    pub fn position(&self) -> (r: u64)
        ensures
            r == self@.position,
    {
        self.position
    }

    #[verifier::rlimit(40)]
    fn find_context(&self, i: usize) -> (r: Context)
        requires
            self.wf(),
            self@.ready(),
            i < self.signers@.len(),
        ensures
            r.wf(),
            r@.data == self@.hashes[serving(self@.hashes, self@.signers[i as int])].data,
            r@.algo == self@.signers[i as int].algo,
    {
        let ghost e = self@.signers[i as int];
        let ghost hs = self@.hashes;
        proof {
            assert(e == self.signers@[i as int]@);
            assert(serves(hs[i as int], e));
        }
        let v4: bool = self.signers[i].signer.0.public().version() == 4;
        let mut j: usize = 0;
        while j < i
            invariant
                self.wf(),
                i < self.signers@.len(),
                self.hashes@.len() == self.signers@.len(),
                j <= i,
                e == self.signers@[i as int]@,
                v4 == (e.key.fingerprint.version == 4),
                hs == hashing_views(self.hashes@),
                self@.hashes == hs,
                self@.signers[i as int] == e,
                self@.ready(),
                forall|k: int| 0 <= k < j ==> !serves(#[trigger] hs[k], e),
            decreases i - j,
        {
            assert(hs[j as int] == self.hashes@[j as int]@);
            let h = &self.hashes[j];
            let found: bool = if v4 {
                h.salt().len() == 0 && h.algo() == self.signers[i].algo
            } else {
                crate::bytes::equal(h.salt().as_slice(), self.signers[i].salt.as_slice())
            };
            if found {
                proof {
                    assert(serves(hs[j as int], e));
                    lemma_serving_first(hs, e, j as int);
                    assert(hs[j as int].algo == e.algo);
                }
                return h.context();
            }
            j = j + 1;
        }
        proof {
            assert(hs[i as int] == self.hashes@[i as int]@);
            lemma_serving_first(hs, e, i as int);
        }
        self.hashes[i].context()
    }

    /// Makes the signature packet of one signer, at a given time.
    #[verifier::rlimit(40)]
    pub fn sign_at(&mut self, i: usize, time: i64) -> (r: Result<Vec<u8>>)
        requires
            old(self).wf(),
            old(self)@.ready(),
            i < old(self).signers@.len(),
            old(self).creation_time matches Some(t) ==> time == t,
        ensures
            final(self).wf(),
            final(self).signers@.len() == old(self).signers@.len(),
            final(self)@ == old(self)@.renewed(i as int, final(self).signers@[i as int].signer),
            !old(self)@.params(i as int, time as int).time_fits() ==> r is Err && r->Err_0@
                == ErrorView::InvalidArgument("Time exceeds u32 epoch"@),
            match r {
                Ok(p) => exists|sig: SignatureView|
                    #![trigger old(self)@.may_sign(i as int, (time as int, sig))]
                    old(self)@.may_sign(i as int, (time as int, sig)) && p@ == old(self)@.signature(
                        i as int,
                        time as int,
                        sig,
                    ),
                Err(e) => old(self)@.may_refuse(i as int, time as int, e@),
            },
    {
        let ghost was = *self;
        let ghost e = self@.signers[i as int];
        let ghost p = self@.params(i as int, time as int);
        proof {
            assert(e == self.signers@[i as int]@);
            assert(p =~= params_of(
                self.template@,
                e.key,
                e.algo,
                e.salt,
                time as int,
                self.recipients@,
            ));
        }
        proof {
            assert(self@.renewed(i as int, e.signer).signers =~= self@.signers);
        }
        let algo = self.signers[i].algo;
        let prepared = match self.template.prepare(
            self.signers[i].signer.0.public(),
            algo,
            self.signers[i].salt.as_slice(),
            time,
            &self.recipients,
        ) {
            Ok(prepared) => prepared,
            Err(e) => return Err(e),
        };
        let mut context = self.find_context(i);
        let trailer = prepared.trailer();
        match context.update(trailer.as_slice()) {
            Ok(()) => (),
            Err(e) => return Err(e),
        }
        let digest = match context.finish() {
            Ok(digest) => digest,
            Err(e) => return Err(e),
        };
        assert(digest@ == self@.digest(i as int, time as int));
        let salt = to_vec(self.signers[i].salt.as_slice());
        let r = self.signers[i].signer.0.sign(algo, digest.as_slice());
        proof {
            let signer = self.signers@[i as int].signer;
            assert(self.signers@[i as int]@ =~= EntryView { signer, ..e });
            assert(entry_views(self.signers@) =~= was@.renewed(i as int, signer).signers);
            assert(self@ =~= was@.renewed(i as int, signer));
        }
        match r {
            Ok(sig) => {
                let r = prepared.assemble(salt.as_slice(), digest.as_slice(), &sig);
                proof {
                    assert(was@.signers[i as int].signer.0.signs(algo, digest@, sig@));
                    if r is Ok {
                        assert(was@.may_sign(i as int, (time as int, sig@)));
                    }
                }
                r
            },
            Err(e) => Err(e),
        }
    }

    /// Makes the signature packet of one signer, now if no other time is
    /// given.
    pub fn sign(&mut self, i: usize) -> (r: Result<Vec<u8>>)
        requires
            old(self).wf(),
            old(self)@.ready(),
            i < old(self).signers@.len(),
        ensures
            final(self).wf(),
            final(self).signers@.len() == old(self).signers@.len(),
            final(self)@ == old(self)@.renewed(i as int, final(self).signers@[i as int].signer),
            old(self).creation_time matches Some(t) ==> !(0 <= t <= u32::MAX) ==> r is Err
                && r->Err_0@ == ErrorView::InvalidArgument("Time exceeds u32 epoch"@),
            match r {
                Ok(p) => exists|outcome: Outcome|
                    #![trigger old(self)@.may_sign(i as int, outcome)]
                    old(self)@.may_sign(i as int, outcome) && p@ == old(self)@.signature(
                        i as int,
                        outcome.0,
                        outcome.1,
                    ),
                Err(e) => exists|time: int|
                    #[trigger] old(self)@.may_refuse(i as int, time, e@),
            },
    {
        let time: i64 = match self.creation_time {
            Some(t) => t,
            None => match seconds_since_epoch() {
                Some(t) => if t > 0x7FFF_FFFF_FFFF_FFFF {
                    -1
                } else {
                    t as i64
                },
                None => -1,
            },
        };
        let ghost was = *self;
        let r = self.sign_at(i, time);
        proof {
            if r is Ok {
                let sig = choose|sig: SignatureView|
                    #![trigger was@.may_sign(i as int, (time as int, sig))]
                    was@.may_sign(i as int, (time as int, sig)) && r->Ok_0@ == was@.signature(
                        i as int,
                        time as int,
                        sig,
                    );
                let outcome: Outcome = (time as int, sig);
                assert(was@.may_sign(i as int, outcome));
            }
        }
        r
    }
}

} // verus!
