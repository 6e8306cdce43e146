//! The streaming signer.

use vstd::prelude::*;
use vstd::string::{StringExecFns, StringSliceAdditionalSpecFns};
use vstd::utf8::encode_utf8;

use crate::backend::random_bytes;
use crate::bytes::{decimal, extend, text, to_decimal, to_vec};
use crate::crypto::AnySigner;
use crate::error::{Error, ErrorView, Result};
use crate::hashing::{hash_refused, Context, HashingMode, HashingView};
use crate::key::{Fingerprint, FingerprintView, Key, KeyView};
use crate::signature::{
    fingerprint_views, make_one_pass_sig, one_pass_sig, SignatureBuilder, TemplateView,
};
use crate::signing::{
    entry_views, hashing_views, Entry, EntryView, SignatureMode, Signing, SigningView,
};
use crate::stack::{
    all_steady, feed, feed_all, with_profile, write_error, Cookie, Filter, FilterView, Layer, LayerView, Message, Private,
};
use crate::stream::next_level;
use crate::textfilter::{DashEscapeFilter, TrailingWSFilter, LF};
use crate::types::{HashAlgorithm, Profile, SignatureType};

verus! {

/// The hash algorithms that signatures are made with, the preferred ones
/// first.
pub open spec fn default_hashes() -> Seq<HashAlgorithm> {
    seq![
        HashAlgorithm::SHA512,
        HashAlgorithm::SHA384,
        HashAlgorithm::SHA256,
        HashAlgorithm::SHA224,
        HashAlgorithm::SHA1,
        HashAlgorithm::RipeMD,
        HashAlgorithm::MD5,
    ]
}

/// The algorithms of `a` that are among `b`, in the order of `a`.
pub open spec fn retained(a: Seq<HashAlgorithm>, b: Seq<HashAlgorithm>) -> Seq<HashAlgorithm>
    decreases a.len(),
{
    if a.len() == 0 {
        Seq::empty()
    } else if b.contains(a.last()) {
        retained(a.drop_last(), b).push(a.last())
    } else {
        retained(a.drop_last(), b)
    }
}

/// What a [`Signer`] is set up to do.
#[verifier::ext_equal]
pub struct SignerView {
    pub inner: Seq<LayerView>,
    pub signers: Seq<AnySigner>,
    /// The public keys of the signers.
    pub keys: Seq<KeyView>,
    /// The set of acceptable hashes.
    pub acceptable: Seq<HashAlgorithm>,
    /// The explicitly selected algorithm, if any.
    pub hash_algo: Option<HashAlgorithm>,
    pub recipients: Seq<FingerprintView>,
    pub mode: SignatureMode,
    pub template: TemplateView,
    pub creation_time: Option<int>,
}

impl SignerView {
    /// The algorithm that the data is hashed with.
    pub open spec fn algo(self) -> HashAlgorithm {
        match self.hash_algo {
            Some(a) => a,
            None => self.acceptable[0],
        }
    }

    /// Whether line endings are normalized.
    pub open spec fn text(self) -> bool {
        self.template.typ is Text || self.mode is Cleartext
    }

    /// The salt of a signer, which only version 6 keys have.
    pub open spec fn salt(self, i: int, salts: Seq<Seq<u8>>) -> Seq<u8> {
        if self.keys[i].fingerprint.version == 6 {
            salts[i]
        } else {
            Seq::empty()
        }
    }

    /// What the signatures will be made with.
    pub open spec fn signing(self, salts: Seq<Seq<u8>>) -> SigningView {
        SigningView {
            signers: Seq::new(
                self.keys.len(),
                |i: int|
                    EntryView {
                        signer: self.signers[i],
                        key: self.keys[i],
                        algo: self.algo(),
                        salt: self.salt(i, salts),
                    },
            ),
            mode: self.mode,
            template: if self.mode is Cleartext {
                TemplateView { typ: SignatureType::Text, ..self.template }
            } else {
                self.template
            },
            creation_time: self.creation_time,
            recipients: self.recipients,
            hashes: Seq::new(
                self.keys.len(),
                |i: int| HashingView::start(self.text(), self.salt(i, salts), self.algo()),
            ),
            position: 0,
        }
    }

    /// The one-pass signature packets: one for each signer, of which the
    /// last one says so.
    pub open spec fn one_pass_sigs(self, salts: Seq<Seq<u8>>) -> Seq<Seq<u8>> {
        Seq::new(
            self.keys.len(),
            |i: int|
                one_pass_sig(
                    self.template.typ,
                    self.keys[i],
                    self.algo(),
                    self.salt(i, salts),
                    i == self.keys.len() - 1,
                ),
        )
    }

    /// Whether one of the keys is a version 4 key.
    pub open spec fn any_v4(self) -> bool {
        exists|i: int|
            0 <= i < self.keys.len() && (#[trigger] self.keys[i]).fingerprint.version == 4
    }

    /// Whether all keys are of a version after 4.
    pub open spec fn all_new(self) -> bool {
        forall|i: int|
            0 <= i < self.keys.len() ==> (#[trigger] self.keys[i]).fingerprint.version > 4
    }

    /// Whether all keys are of a known version.
    pub open spec fn versions_known(self) -> bool {
        forall|i: int|
            0 <= i < self.keys.len() ==> ((#[trigger] self.keys[i]).fingerprint.version == 4
                || self.keys[i].fingerprint.version == 6)
    }

    /// What precedes a text that is signed in the clear: a line that says
    /// so, and one that names the hash algorithm if a version 4 key signs.
    pub open spec fn cleartext_header(self) -> Seq<u8> {
        text("-----BEGIN PGP SIGNED MESSAGE-----") + seq![LF] + (if self.any_v4() {
            text("Hash: ") + encode_utf8(self.algo().spec_text_name()->0) + seq![LF]
        } else {
            Seq::empty()
        }) + seq![LF]
    }

    /// The stack below, with the profile set if all keys are new.
    pub open spec fn profiled(self) -> Seq<LayerView> {
        if self.all_new() {
            with_profile(self.inner, Profile::RFC9580)
        } else {
            self.inner
        }
    }

    /// The stack that is built, given the salts of the signatures.
    pub open spec fn built(self, salts: Seq<Seq<u8>>) -> Seq<LayerView> {
        let signer = LayerView {
            cookie: Cookie { level: next_level(self.inner), private: Private::Signer },
            filter: FilterView::Signer(self.signing(salts)),
        };
        let cookie = Cookie { level: 0, private: Private::Nothing };
        match self.mode {
            SignatureMode::Inline => feed_all(self.profiled(), self.one_pass_sigs(salts)).push(
                signer,
            ),
            SignatureMode::Detached => self.profiled().push(signer),
            SignatureMode::Cleartext => feed(self.profiled(), self.cleartext_header()).push(
                LayerView { cookie, filter: FilterView::DashEscape(Seq::empty()) },
            ).push(signer).push(
                LayerView { cookie, filter: FilterView::TrailingWS(Seq::empty()) },
            ),
        }
    }

    /// Whether the salts have the length that the algorithm asks for.
    pub open spec fn salts_fit(self, salts: Seq<Seq<u8>>) -> bool {
        &&& salts.len() == self.keys.len()
        &&& forall|i: int|
            0 <= i < self.keys.len() && (#[trigger] self.keys[i]).fingerprint.version == 6
                && self.algo().spec_salt_size() is Some ==> salts[i].len()
                == self.algo().spec_salt_size()->0
    }

    /// Why no signature can be made with a key: its version is unknown, or it
    /// asks for a salt and there is none for the algorithm.
    pub open spec fn refusal_at(self, i: int) -> Option<ErrorView> {
        let version = self.keys[i].fingerprint.version;
        if version != 4 && version != 6 {
            Some(unsupported_version(version))
        } else if version == 6 && self.algo().spec_salt_size() is None {
            Some(ErrorView::UnsupportedHashAlgorithm(self.algo()))
        } else {
            None
        }
    }

    /// Why nothing is built, from one key on: the first reason counts.
    pub open spec fn refusal_from(self, i: int) -> Option<ErrorView>
        decreases self.keys.len() - i,
    {
        if i < 0 || i >= self.keys.len() {
            None
        } else {
            match self.refusal_at(i) {
                Some(e) => Some(e),
                None => self.refusal_from(i + 1),
            }
        }
    }

    /// Why nothing is built, whatever the salts are: the first reason counts.
    pub open spec fn refusal(self) -> Option<ErrorView> {
        self.refusal_from(0)
    }

    /// Whether there is a signer, and an acceptable hash algorithm; whether
    /// the acceptable algorithms are some of the default ones, in their order,
    /// and every signer accepts all of them; and whether the selected one is
    /// acceptable.
    pub open spec fn valid(self) -> bool {
        &&& self.keys.len() > 0
        &&& self.signers.len() == self.keys.len()
        &&& forall|i: int|
            0 <= i < self.keys.len() ==> (#[trigger] self.keys[i])
                == self.signers[i].0.spec_public()
        &&& self.acceptable.len() > 0
        &&& retained(default_hashes(), self.acceptable) == self.acceptable
        &&& forall|i: int, x: HashAlgorithm|
            0 <= i < self.signers.len() && #[trigger] self.acceptable.contains(x)
                ==> #[trigger] self.signers[i].0.spec_acceptable_hashes().contains(x)
        &&& self.hash_algo matches Some(a) ==> self.acceptable.contains(a)
    }
}

/// Keys that are not refused do not count.
proof fn lemma_refusal_skips(v: SignerView, i: int)
    requires
        0 <= i <= v.keys.len(),
        forall|j: int| 0 <= j < i ==> #[trigger] v.refusal_at(j) is None,
    ensures
        v.refusal() == v.refusal_from(i),
    decreases i,
{
    if i > 0 {
        lemma_refusal_skips(v, i - 1);
        assert(v.refusal_at(i - 1) is None);
    }
}

/// If nothing is refused, no key is.
pub proof fn lemma_none_refused(v: SignerView, i: int, j: int)
    requires
        0 <= i <= j < v.keys.len(),
        v.refusal_from(i) is None,
    ensures
        v.refusal_at(j) is None,
    decreases j - i,
{
    if i < j {
        lemma_none_refused(v, i + 1, j);
    }
}

/// Nothing is built if and only if a key is refused, and the reason is the one
/// for such a key.
pub proof fn law_refused_for_a_key(v: SignerView)
    ensures
        v.refusal() is Some <==> exists|i: int|
            0 <= i < v.keys.len() && #[trigger] v.refusal_at(i) is Some,
        v.refusal() is Some ==> exists|i: int|
            0 <= i < v.keys.len() && #[trigger] v.refusal_at(i) == v.refusal(),
{
    lemma_refused_from(v, 0);
    if v.refusal() is None {
        assert forall|i: int| 0 <= i < v.keys.len() implies #[trigger] v.refusal_at(i) is None by {
            lemma_none_refused(v, 0, i);
        }
    }
}

proof fn lemma_refused_from(v: SignerView, i: int)
    requires
        0 <= i <= v.keys.len(),
    ensures
        v.refusal_from(i) is Some ==> exists|j: int|
            i <= j < v.keys.len() && #[trigger] v.refusal_at(j) == v.refusal_from(i),
    decreases v.keys.len() - i,
{
    if i < v.keys.len() {
        if v.refusal_at(i) is None {
            lemma_refused_from(v, i + 1);
        } else {
            assert(v.refusal_at(i) == v.refusal_from(i));
        }
    }
}

/// An algorithm stays acceptable if and only if it was acceptable and the
/// signer accepts it.
pub proof fn law_retained_are_acceptable_to_both(
    a: Seq<HashAlgorithm>,
    b: Seq<HashAlgorithm>,
    x: HashAlgorithm,
)
    ensures
        retained(a, b).contains(x) <==> a.contains(x) && b.contains(x),
    decreases a.len(),
{
    if a.len() > 0 {
        let init = a.drop_last();
        let kept = retained(init, b);
        law_retained_are_acceptable_to_both(init, b, x);
        assert(init.push(a.last()) =~= a);
        lemma_contains_push(init, a.last(), x);
        lemma_contains_push(kept, a.last(), x);
    }
}

proof fn lemma_contains_push(s: Seq<HashAlgorithm>, y: HashAlgorithm, x: HashAlgorithm)
    ensures
        s.push(y).contains(x) <==> s.contains(x) || x == y,
{
    if s.contains(x) {
        let i = choose|i: int| 0 <= i < s.len() && s[i] == x;
        assert(s.push(y)[i] == x);
    }
    if x == y {
        assert(s.push(y)[s.len() as int] == x);
    }
    if s.push(y).contains(x) {
        let i = choose|i: int| 0 <= i < s.push(y).len() && s.push(y)[i] == x;
        if i < s.len() {
            assert(s[i] == x);
        }
    }
}

/// Retaining what is in two lists is retaining what is in one and then what is
/// in the other.
proof fn lemma_retained_twice(
    d: Seq<HashAlgorithm>,
    a: Seq<HashAlgorithm>,
    b: Seq<HashAlgorithm>,
    c: Seq<HashAlgorithm>,
)
    requires
        forall|x: HashAlgorithm| #[trigger] c.contains(x) <==> a.contains(x) && b.contains(x),
    ensures
        retained(d, c) == retained(retained(d, a), b),
    decreases d.len(),
{
    if d.len() > 0 {
        lemma_retained_twice(d.drop_last(), a, b, c);
        assert(c.contains(d.last()) <==> a.contains(d.last()) && b.contains(d.last()));
        let kept = retained(d.drop_last(), a);
        assert(kept.push(d.last()).drop_last() =~= kept);
    }
}

proof fn lemma_retained_all(a: Seq<HashAlgorithm>, b: Seq<HashAlgorithm>)
    requires
        forall|i: int| 0 <= i < a.len() ==> b.contains(#[trigger] a[i]),
    ensures
        retained(a, b) == a,
    decreases a.len(),
{
    if a.len() > 0 {
        assert(b.contains(a[a.len() - 1]));
        assert forall|i: int| 0 <= i < a.drop_last().len() implies b.contains(
            #[trigger] a.drop_last()[i],
        ) by {
            assert(b.contains(a[i]));
        }
        lemma_retained_all(a.drop_last(), b);
        assert(a.drop_last().push(a.last()) =~= a);
    }
}

/// What is kept of acceptable algorithms that are default ones, in their
/// order, is too.
proof fn lemma_kept_in_order(a: Seq<HashAlgorithm>, b: Seq<HashAlgorithm>)
    requires
        retained(default_hashes(), a) == a,
    ensures
        retained(default_hashes(), retained(a, b)) == retained(a, b),
{
    let c = retained(a, b);
    assert forall|x: HashAlgorithm| #[trigger] c.contains(x) <==> a.contains(x) && b.contains(
        x,
    ) by {
        law_retained_are_acceptable_to_both(a, b, x);
    }
    lemma_retained_twice(default_hashes(), a, b, c);
}

/// The algorithm that is used is acceptable.
proof fn lemma_algo_known(v: SignerView)
    requires
        v.valid(),
    ensures
        v.acceptable.contains(v.algo()),
        default_hashes().contains(v.algo()),
        v.algo().spec_nid() is Some,
        v.algo().spec_text_name() is Some,
{
    assert(v.acceptable.contains(v.acceptable[0]));
    law_retained_are_acceptable_to_both(default_hashes(), v.acceptable, v.algo());
}

/// The error for a key of an unknown version.
pub open spec fn unsupported_version(version: u8) -> ErrorView {
    ErrorView::InvalidOperation("Unsupported Key version "@ + decimal(version as nat))
}

/// Signs a message.
///
/// Signs a message with every [`crate::crypto::Signer`] added to the streaming
/// signer.
pub struct Signer {
    inner: Message,
    signers: Vec<Entry>,
    acceptable_hash_algos: Vec<HashAlgorithm>,
    hash_algo: Option<HashAlgorithm>,
    intended_recipients: Vec<Fingerprint>,
    mode: SignatureMode,
    template: SignatureBuilder,
    creation_time: Option<i64>,
}

impl View for Signer {
    type V = SignerView;

    closed spec fn view(&self) -> SignerView {
        SignerView {
            inner: self.inner@,
            signers: signers_of(self.signers@),
            keys: keys_of(self.signers@),
            acceptable: self.acceptable_hash_algos@,
            hash_algo: self.hash_algo,
            recipients: fingerprint_views(self.intended_recipients@),
            mode: self.mode,
            template: self.template@,
            creation_time: match self.creation_time {
                Some(t) => Some(t as int),
                None => None,
            },
        }
    }
}

/// The signers of entries.
pub open spec fn signers_of(entries: Seq<Entry>) -> Seq<AnySigner> {
    entries.map_values(|e: Entry| e.signer)
}

/// The keys of signers.
pub open spec fn keys_of(signers: Seq<Entry>) -> Seq<KeyView> {
    signers.map_values(|e: Entry| e.signer.0.spec_public())
}

fn contains(v: &[HashAlgorithm], algo: HashAlgorithm) -> (r: bool)
    ensures
        r == v@.contains(algo),
{
    let mut i: usize = 0;
    while i < v.len()
        invariant
            i <= v@.len(),
            forall|j: int| 0 <= j < i ==> v@[j] != algo,
        decreases v@.len() - i,
    {
        if v[i] == algo {
            return true;
        }
        i = i + 1;
    }
    false
}

fn retain(a: &Vec<HashAlgorithm>, b: &[HashAlgorithm]) -> (r: Vec<HashAlgorithm>)
    ensures
        r@ == retained(a@, b@),
{
    let mut r: Vec<HashAlgorithm> = Vec::new();
    let mut i: usize = 0;
    proof {
        assert(a@.take(0) =~= Seq::<HashAlgorithm>::empty());
    }
    while i < a.len()
        invariant
            i <= a@.len(),
            r@ == retained(a@.take(i as int), b@),
        decreases a@.len() - i,
    {
        assert(a@.take(i + 1).drop_last() =~= a@.take(i as int));
        if contains(b, a[i]) {
            r.push(a[i]);
        }
        i = i + 1;
    }
    assert(a@.take(a@.len() as int) =~= a@);
    r
}

impl Signer {
    pub closed spec fn wf(&self) -> bool {
        self.inner.wf() && self@.valid()
    }

    /// There is always a signer, and a hash algorithm that all signers accept;
    /// the acceptable algorithms are default ones, in their order.
    pub proof fn law_valid(&self)
        requires
            self.wf(),
        ensures
            self@.valid(),
    {
    }

    /// Creates a signer.
    ///
    /// Signs the message with the given [`crate::crypto::Signer`].  To create more
    /// than one signature, add more [`crate::crypto::Signer`]s using
    /// [`Signer::add_signer`].  Properties of the signatures can be tweaked
    /// using the methods of this type.  Notably, to generate a detached
    /// signature, use [`Signer::detached`].  For even more control over the
    /// generated signatures, use [`Signer::with_template`].
    pub fn new(inner: Message, signer: AnySigner) -> (r: Result<Signer>)
        requires
            inner.wf(),
        ensures
            signer_created(
                inner@,
                signer,
                TemplateView {
                    typ: SignatureType::Binary,
                    hashed: Seq::empty(),
                    unhashed: Seq::empty(),
                },
                r,
            ),
    {
        Self::with_template(inner, signer, SignatureBuilder::new(SignatureType::Binary))
    }

    /// Creates a signer with a given signature template.
    ///
    /// Signs the message with the given [`crate::crypto::Signer`] like
    /// [`Signer::new`], but allows more control over the generated
    /// signatures.  The given [`SignatureBuilder`] is used to create all the
    /// signatures.
    pub fn with_template(
        inner: Message,
        signer: AnySigner,
        template: SignatureBuilder,
    ) -> (r: Result<Signer>)
        requires
            inner.wf(),
        ensures
            signer_created(
                inner@,
                signer,
                template@,
                r,
            ),
    {
        let acceptable_hash_algos: Vec<HashAlgorithm> = vec![
            HashAlgorithm::SHA512,
            HashAlgorithm::SHA384,
            HashAlgorithm::SHA256,
            HashAlgorithm::SHA224,
            HashAlgorithm::SHA1,
            HashAlgorithm::RipeMD,
            HashAlgorithm::MD5,
        ];
        assert(acceptable_hash_algos@ =~= default_hashes());
        let r = Signer {
            inner,
            signers: Vec::new(),
            acceptable_hash_algos,
            hash_algo: None,
            intended_recipients: Vec::new(),
            mode: SignatureMode::Inline,
            template,
            creation_time: None,
        };
        proof {
            assert(r@.keys =~= Seq::<KeyView>::empty());
            assert(r@.signers =~= Seq::<AnySigner>::empty());
            assert(Seq::<AnySigner>::empty().push(signer) =~= seq![signer]);
            lemma_retained_all(default_hashes(), default_hashes());
            assert(r@.recipients =~= Seq::<FingerprintView>::empty());
            assert(Seq::<KeyView>::empty().push(signer.0.spec_public()) =~= seq![
                signer.0.spec_public(),
            ]);
        }
        r.accept_signer(signer)
    }

    fn accept_signer(self, signer: AnySigner) -> (r: Result<Signer>)
        requires
            self.inner.wf(),
            self@.keys.len() > 0 ==> self@.valid(),
            self@.signers.len() == self@.keys.len(),
            retained(default_hashes(), self@.acceptable) == self@.acceptable,
        ensures
            ({
                let kept = retained(self@.acceptable, signer.0.spec_acceptable_hashes());
                let acceptable = kept.len() > 0 && (self@.hash_algo matches Some(a)
                    ==> kept.contains(a));
                match r {
                    Ok(s) => acceptable && s.wf() && s@ == (SignerView {
                        signers: self@.signers.push(signer),
                        keys: self@.keys.push(signer.0.spec_public()),
                        acceptable: kept,
                        ..self@
                    }),
                    Err(e) => !acceptable && e@ == ErrorView::NoAcceptableHash,
                }
            }),
    {
        // Update the set of acceptable hash algorithms.
        let kept = retain(&self.acceptable_hash_algos, signer.0.acceptable_hashes());
        if kept.len() == 0 {
            return Err(Error::NoAcceptableHash);
        }
        match self.hash_algo {
            Some(a) => {
                if !contains(kept.as_slice(), a) {
                    return Err(Error::NoAcceptableHash);
                }
            },
            None => (),
        }
        let ghost key = signer.0.spec_public();
        let ghost was = self@;
        let mut signers = self.signers;
        signers.push(Entry { signer, algo: HashAlgorithm::default(), salt: Vec::new() });
        let r = Signer {
            inner: self.inner,
            signers,
            acceptable_hash_algos: kept,
            hash_algo: self.hash_algo,
            intended_recipients: self.intended_recipients,
            mode: self.mode,
            template: self.template,
            creation_time: self.creation_time,
        };
        proof {
            assert(r@.keys =~= was.keys.push(key));
            assert(r@.signers =~= was.signers.push(signer));
            lemma_kept_in_order(was.acceptable, signer.0.spec_acceptable_hashes());
            let v = r@;
            assert forall|i: int| 0 <= i < v.keys.len() implies (#[trigger] v.keys[i])
                == v.signers[i].0.spec_public() by {
                if i < was.keys.len() {
                    assert(v.keys[i] == was.keys[i]);
                }
            }
            assert forall|i: int, x: HashAlgorithm|
                0 <= i < v.signers.len() && #[trigger] v.acceptable.contains(
                    x,
                ) implies #[trigger] v.signers[i].0.spec_acceptable_hashes().contains(x) by {
                law_retained_are_acceptable_to_both(
                    was.acceptable,
                    signer.0.spec_acceptable_hashes(),
                    x,
                );
                if i < was.signers.len() {
                    assert(v.signers[i] == was.signers[i]);
                    assert(was.acceptable.contains(x));
                }
            }
        }
        Ok(r)
    }

    /// Creates a signer for a detached signature.
    ///
    /// Changes the `Signer` to create a detached signature (see [Section
    /// 10.4 of RFC 9580]).  Note that the literal data *must not* be wrapped
    /// using the literal writer.
    ///
    /// This overrides any prior call to [`Signer::cleartext`].
    ///
    ///   [Section 10.4 of RFC 9580]: https://www.rfc-editor.org/rfc/rfc9580.html#section-10.4
    pub fn detached(self) -> (r: Signer)
        requires
            self.wf(),
        ensures
            r.wf(),
            r@ == (SignerView { mode: SignatureMode::Detached, ..self@ }),
    {
        let mut r = self;
        r.mode = SignatureMode::Detached;
        r
    }

    /// Creates a signer for a cleartext signed message.
    ///
    /// Changes the `Signer` to create a cleartext signed message (see
    /// [Section 7 of RFC 9580]).  Note that the literal data *must not* be
    /// wrapped using the literal writer.  This overrides
    /// [`Signer::detached`].
    ///
    /// Trailing whitespace is stripped from the lines before they are
    /// hashed, a final newline is added if it is missing, and the lines are
    /// dash-escaped after they have been hashed.
    ///
    ///   [Section 7 of RFC 9580]: https://www.rfc-editor.org/rfc/rfc9580.html#section-7
    pub fn cleartext(self) -> (r: Signer)
        requires
            self.wf(),
        ensures
            r.wf(),
            r@ == (SignerView { mode: SignatureMode::Cleartext, ..self@ }),
    {
        let mut r = self;
        r.mode = SignatureMode::Cleartext;
        r
    }

    /// Adds an additional signer.
    ///
    /// Can be used multiple times.  The hash algorithms that are not
    /// acceptable to the signer are not acceptable any more.
    pub fn add_signer(self, signer: AnySigner) -> (r: Result<Signer>)
        requires
            self.wf(),
        ensures
            ({
                let kept = retained(self@.acceptable, signer.0.spec_acceptable_hashes());
                let acceptable = kept.len() > 0 && (self@.hash_algo matches Some(a)
                    ==> kept.contains(a));
                match r {
                    Ok(s) => acceptable && s.wf() && s@ == (SignerView {
                        signers: self@.signers.push(signer),
                        keys: self@.keys.push(signer.0.spec_public()),
                        acceptable: kept,
                        ..self@
                    }),
                    Err(e) => !acceptable && e@ == ErrorView::NoAcceptableHash,
                }
            }),
    {
        self.accept_signer(signer)
    }

    /// Adds an intended recipient.
    ///
    /// Indicates that the given certificate, referred to by its fingerprint,
    /// is an intended recipient of this message.  Can be used multiple
    /// times.  This prevents [*Surreptitious Forwarding*] of encrypted and
    /// signed messages, i.e. forwarding a signed message using a different
    /// encryption context.
    ///
    ///   [*Surreptitious Forwarding*]: http://world.std.com/~dtd/sign_encrypt/sign_encrypt7.html
    pub fn add_intended_recipient(self, recipient: &Key) -> (r: Signer)
        requires
            self.wf(),
        ensures
            r.wf(),
            r@ == (SignerView {
                recipients: self@.recipients.push(recipient@.fingerprint),
                ..self@
            }),
    {
        let ghost was = self@;
        let mut r = self;
        r.intended_recipients.push(recipient.fingerprint().duplicate());
        assert(r@.recipients =~= was.recipients.push(recipient@.fingerprint));
        r
    }

    /// Sets the hash algorithm to use for the signatures.
    ///
    /// The algorithm must be acceptable to all signers.
    pub fn hash_algo(self, algo: HashAlgorithm) -> (r: Result<Signer>)
        requires
            self.wf(),
        ensures
            match r {
                Ok(s) => self@.acceptable.contains(algo) && s.wf() && s@ == (SignerView {
                    hash_algo: Some(algo),
                    ..self@
                }),
                Err(e) => !self@.acceptable.contains(algo) && e@ == ErrorView::NoAcceptableHash,
            },
    {
        if contains(self.acceptable_hash_algos.as_slice(), algo) {
            let mut r = self;
            r.hash_algo = Some(algo);
            Ok(r)
        } else {
            Err(Error::NoAcceptableHash)
        }
    }

    /// Sets the signature's creation time, in seconds since the epoch.
    ///
    /// Note: it is up to the caller to make sure the signing keys are
    /// actually valid as of `creation_time`.
    pub fn creation_time(self, creation_time: i64) -> (r: Signer)
        requires
            self.wf(),
        ensures
            r.wf(),
            r@ == (SignerView { creation_time: Some(creation_time as int), ..self@ }),
    {
        let mut r = self;
        r.creation_time = Some(creation_time);
        r
    }
}

/// What the creation of a signer comes to.
pub open spec fn signer_created(
    inner: Seq<LayerView>,
    signer: AnySigner,
    template: TemplateView,
    r: Result<Signer>,
) -> bool {
    let kept = retained(default_hashes(), signer.0.spec_acceptable_hashes());
    match r {
        Ok(s) => kept.len() > 0 && s.wf() && s@ == (SignerView {
            inner,
            signers: seq![signer],
            keys: seq![signer.0.spec_public()],
            acceptable: kept,
            hash_algo: None,
            recipients: Seq::empty(),
            mode: SignatureMode::Inline,
            template,
            creation_time: None,
        }),
        Err(e) => kept.len() == 0 && e@ == ErrorView::NoAcceptableHash,
    }
}

/// The octets of several salts.
pub open spec fn salt_views(salts: Seq<Vec<u8>>) -> Seq<Seq<u8>> {
    crate::bytes::views(salts)
}

/// If nothing is refused, all keys are of a known version.
proof fn lemma_versions_known(v: SignerView)
    requires
        v.refusal() is None,
    ensures
        v.versions_known(),
{
    assert forall|i: int| 0 <= i < v.keys.len() implies ((
    #[trigger] v.keys[i]).fingerprint.version == 4 || v.keys[i].fingerprint.version == 6) by {
        lemma_none_refused(v, 0, i);
    }
}

/// Why no signature can be made with a key of this version.
fn check_version(version: u8, algo: HashAlgorithm) -> (r: Result<()>)
    ensures
        match r {
            Ok(_) => version == 4 || version == 6 && algo.spec_salt_size() is Some,
            Err(e) => {
                ||| version != 4 && version != 6 && e@ == unsupported_version(version)
                ||| version == 6 && algo.spec_salt_size() is None && e@
                    == ErrorView::UnsupportedHashAlgorithm(algo)
            },
        },
{
    if version != 4 && version != 6 {
        let n: String = to_decimal(version as u64);
        let message: String = String::from_str("Unsupported Key version ").concat(n.as_str());
        return Err(Error::InvalidOperation(message));
    }
    if version == 6 {
        match algo.salt_size() {
            Ok(_) => (),
            Err(e) => return Err(e),
        }
    }
    Ok(())
}

impl Signer {
    fn chosen_algo(&self) -> (r: HashAlgorithm)
        requires
            self.wf(),
        ensures
            r == self@.algo(),
    {
        match self.hash_algo {
            Some(a) => a,
            None => self.acceptable_hash_algos[0],
        }
    }

    fn is_all_new(&self) -> (r: bool)
        ensures
            r == self@.all_new(),
    {
        let mut i: usize = 0;
        while i < self.signers.len()
            invariant
                i <= self.signers@.len(),
                forall|j: int|
                    0 <= j < i ==> (#[trigger] self@.keys[j]).fingerprint.version > 4,
            decreases self.signers@.len() - i,
        {
            assert(self@.keys[i as int] == self.signers@[i as int].signer.0.spec_public());
            if self.signers[i].signer.0.public().version() <= 4 {
                return false;
            }
            i = i + 1;
        }
        true
    }

    fn is_any_v4(&self) -> (r: bool)
        ensures
            r == self@.any_v4(),
    {
        let mut i: usize = 0;
        while i < self.signers.len()
            invariant
                i <= self.signers@.len(),
                forall|j: int|
                    0 <= j < i ==> (#[trigger] self@.keys[j]).fingerprint.version != 4,
            decreases self.signers@.len() - i,
        {
            assert(self@.keys[i as int] == self.signers@[i as int].signer.0.spec_public());
            if self.signers[i].signer.0.public().version() == 4 {
                return true;
            }
            i = i + 1;
        }
        false
    }

    /// Starts hashing for every signer.
    #[verifier::rlimit(40)]
    fn start_hashing(&self, salts: &Vec<Vec<u8>>) -> (r: Result<Vec<HashingMode>>)
        requires
            self.wf(),
            self@.salts_fit(salt_views(salts@)),
        ensures
            match r {
                Ok(hashes) => {
                    &&& self@.refusal() is None
                    &&& hashing_views(hashes@) == self@.signing(salt_views(salts@)).hashes
                    &&& forall|i: int| 0 <= i < hashes@.len() ==> (#[trigger] hashes@[i]).wf()
                },
                Err(e) => self@.refusal() == Some(e@) || hash_refused(self@.algo(), e@),
            },
    {
        let ghost v = self@;
        let ghost views = salt_views(salts@);
        let ghost target = v.signing(views);
        let algo = self.chosen_algo();
        let text_mode: bool = self.template.typ() == SignatureType::Text || self.mode
            == SignatureMode::Cleartext;
        let mut hashes: Vec<HashingMode> = Vec::new();
        let mut i: usize = 0;
        while i < self.signers.len()
            invariant
                i <= self.signers@.len(),
                self.signers@.len() == v.keys.len(),
                salts@.len() == v.keys.len(),
                self.wf(),
                self@ == v,
                views == salt_views(salts@),
                target == v.signing(views),
                algo == v.algo(),
                text_mode == v.text(),
                hashes@.len() == i,
                forall|j: int| 0 <= j < i ==> (#[trigger] hashes@[j]).wf(),
                forall|j: int| 0 <= j < i ==> (#[trigger] hashes@[j])@ == target.hashes[j],
                forall|j: int| 0 <= j < i ==> #[trigger] v.refusal_at(j) is None,
            decreases self.signers@.len() - i,
        {
            proof {
                assert(v.keys[i as int] == self.signers@[i as int].signer.0.spec_public());
                assert(views[i as int] == salts@[i as int]@);
                lemma_refusal_skips(v, i as int);
            }
            let context = match Context::new(algo) {
                Ok(context) => context,
                Err(e) => return Err(e),
            };
            let version: u8 = self.signers[i].signer.0.public().version();
            match check_version(version, algo) {
                Ok(()) => (),
                Err(e) => return Err(e),
            }
            let mut salt: Vec<u8> = Vec::new();
            if version == 6 {
                salt = to_vec(salts[i].as_slice());
            }
            assert(salt@ =~= v.salt(i as int, views));
            match HashingMode::new(text_mode, salt, context) {
                Ok(h) => hashes.push(h),
                Err(e) => return Err(e),
            }
            assert(hashes@[i as int]@ == target.hashes[i as int]);
            i = i + 1;
        }
        proof {
            lemma_refusal_skips(v, i as int);
            assert(hashing_views(hashes@) =~= target.hashes);
        }
        Ok(hashes)
    }

    /// Fixes the algorithm and the salt of every signer.
    #[verifier::rlimit(40)]
    fn fix_signers(&mut self, salts: &Vec<Vec<u8>>) -> (r: Result<()>)
        requires
            old(self).wf(),
            old(self)@.salts_fit(salt_views(salts@)),
        ensures
            final(self)@ == old(self)@,
            final(self).wf(),
            match r {
                Ok(_) => {
                    &&& old(self)@.refusal() is None
                    &&& entry_views(final(self).signers@) == old(self)@.signing(
                        salt_views(salts@),
                    ).signers
                    &&& old(self)@.signing(salt_views(salts@)).ready()
                },
                Err(e) => old(self)@.refusal() == Some(e@),
            },
    {
        let ghost v = self@;
        let ghost views = salt_views(salts@);
        let ghost target = v.signing(views);
        let algo = self.chosen_algo();
        proof {
            lemma_algo_known(v);
        }
        let mut i: usize = 0;
        while i < self.signers.len()
            invariant
                i <= self.signers@.len(),
                self.signers@.len() == v.keys.len(),
                salts@.len() == v.keys.len(),
                v == old(self)@,
                v.valid(),
                self.wf(),
                self@ == v,
                views == salt_views(salts@),
                v.salts_fit(views),
                target == v.signing(views),
                algo == v.algo(),
                algo.spec_nid() is Some,
                forall|j: int| 0 <= j < i ==> (#[trigger] self.signers@[j])@ == target.signers[j],
                forall|j: int| 0 <= j < i ==> #[trigger] v.refusal_at(j) is None,
                forall|j: int|
                    0 <= j < i ==> ((#[trigger] v.keys[j]).fingerprint.version == 4
                        || v.keys[j].fingerprint.version == 6 && views[j].len() <= 32),
            decreases self.signers@.len() - i,
        {
            let ghost before = self.signers@;
            proof {
                assert(v.keys[i as int] == self.signers@[i as int].signer.0.spec_public());
                assert(v.signers[i as int] == self.signers@[i as int].signer);
                assert(views[i as int] == salts@[i as int]@);
                lemma_refusal_skips(v, i as int);
            }
            let version: u8 = self.signers[i].signer.0.public().version();
            match check_version(version, algo) {
                Ok(()) => (),
                Err(e) => return Err(e),
            }
            let mut salt: Vec<u8> = Vec::new();
            if version == 6 {
                salt = to_vec(salts[i].as_slice());
            }
            assert(salt@ =~= v.salt(i as int, views));
            self.signers[i].algo = algo;
            self.signers[i].salt = salt;
            proof {
                assert(self.signers@[i as int].signer == before[i as int].signer);
                assert forall|j: int| 0 <= j < before.len() && j != i implies self.signers@[j]
                    == before[j] by {}
                assert(keys_of(self.signers@) =~= keys_of(before));
                assert(signers_of(self.signers@) =~= signers_of(before));
                assert(self@ =~= v);
                assert(self.signers@[i as int]@ =~= target.signers[i as int]);
                assert forall|j: int| 0 <= j < i + 1 implies (#[trigger] self.signers@[j])@
                    == target.signers[j] by {
                    if j < i {
                        assert(self.signers@[j] == before[j]);
                    }
                }
            }
            i = i + 1;
        }
        proof {
            lemma_refusal_skips(v, i as int);
            assert(entry_views(self.signers@) =~= target.signers);
            assert forall|k: int| 0 <= k < target.signers.len() implies {
                let e = #[trigger] target.signers[k];
                &&& e.key.fingerprint.version == 4 || e.key.fingerprint.version == 6
                &&& e.salt.len() <= 255
                &&& e.algo.spec_nid() is Some
                &&& crate::signing::serves(target.hashes[k], e)
                &&& target.hashes[k].algo == e.algo
                &&& forall|j: int|
                    0 <= j < target.hashes.len() ==> (#[trigger] target.hashes[j]).algo == e.algo
            } by {
                assert(v.keys[k].fingerprint.version == 4 || v.keys[k].fingerprint.version == 6);
            }
        }
        Ok(())
    }

    /// Builds the signer, given the salts of the signatures of version 6
    /// keys, and returns the writer stack.
    pub fn build_with_salts(self, salts: Vec<Vec<u8>>) -> (r: Result<Message>)
        requires
            self.wf(),
            self@.salts_fit(salt_views(salts@)),
        ensures
            match r {
                Ok(m) => self@.refusal() is None && m.wf() && m@ == self@.built(
                    salt_views(salts@),
                ),
                Err(e) => {
                    ||| self@.refusal() == Some(e@)
                    ||| hash_refused(self@.algo(), e@)
                    ||| self@.refusal() is None && !all_steady(self@.inner) && write_error(e@)
                },
            },
    {
        match self.start_hashing(&salts) {
            Ok(hashes) => self.build_with_hashes(salts, hashes),
            Err(e) => Err(e),
        }
    }

    /// Builds the signer, given the salts of the signatures of version 6 keys
    /// and what the data is hashed with, and returns the writer stack.
    #[verifier::rlimit(40)]
    pub fn build_with_hashes(self, salts: Vec<Vec<u8>>, hashes: Vec<HashingMode>) -> (r: Result<
        Message,
    >)
        requires
            self.wf(),
            self@.salts_fit(salt_views(salts@)),
            hashing_views(hashes@) == self@.signing(salt_views(salts@)).hashes,
            forall|i: int| 0 <= i < hashes@.len() ==> (#[trigger] hashes@[i]).wf(),
        ensures
            all_steady(self@.inner) ==> (r is Ok <==> self@.refusal() is None),
            match r {
                Ok(m) => self@.refusal() is None && m.wf() && m@ == self@.built(
                    salt_views(salts@),
                ),
                Err(e) => {
                    ||| self@.refusal() == Some(e@)
                    ||| self@.refusal() is None && !all_steady(self@.inner) && write_error(e@)
                },
            },
    {
        let ghost v = self@;
        let ghost views = salt_views(salts@);
        let level: usize = self.inner.cookie().level.saturating_add(1);
        let cookie = Cookie::new(level).set_private(Private::Signer);
        let mut me = self;
        match me.fix_signers(&salts) {
            Ok(()) => (),
            Err(e) => return Err(e),
        }
        proof {
            lemma_algo_known(v);
            lemma_versions_known(v);
        }
        let algo = me.chosen_algo();
        let any_v4: bool = me.is_any_v4();
        // Possibly configure any armor writer above us.
        let all_new: bool = me.is_all_new();
        let mut inner = me.inner;
        if all_new {
            inner.set_profile(Profile::RFC9580);
        }
        proof {
            inner.lemma_structured();
        }
        let mode = me.mode;
        let mut template = me.template;
        if mode == SignatureMode::Cleartext {
            // Cleartext signatures are always text signatures.
            template.set_type(SignatureType::Text);
        }
        let signing = Signing {
            signers: me.signers,
            mode,
            template,
            creation_time: me.creation_time,
            recipients: me.intended_recipients,
            hashes,
            position: 0,
        };
        let ghost target = v.signing(views);
        assert(signing@ =~= target);
        match mode {
            SignatureMode::Inline => {
                // For every key we collected, build and emit a one pass
                // signature packet.
                let ghost ops = v.one_pass_sigs(views);
                let n: usize = signing.signers.len();
                let mut i: usize = 0;
                proof {
                    assert(ops.take(0) =~= Seq::<Seq<u8>>::empty());
                }
                while i < n
                    invariant
                        i <= n,
                        n == signing.signers@.len(),
                        n == v.keys.len(),
                        v == self@,
                        ops == v.one_pass_sigs(views),
                        v.versions_known(),
                        v.refusal() is None,
                        signing@ == target,
                        target == v.signing(views),
                        target.template == v.template,
                        target.ready(),
                        inner.wf(),
                        all_steady(v.inner) ==> all_steady(inner@),
                        inner@ == feed_all(v.profiled(), ops.take(i as int)),
                    decreases n - i,
                {
                    let last: bool = i == n - 1;
                    proof {
                        assert(target.signers[i as int] == signing.signers@[i as int]@);
                        assert(target.signers[i as int].key == v.keys[i as int]);
                        assert(v.keys[i as int].fingerprint.version == 4
                            || v.keys[i as int].fingerprint.version == 6);
                    }
                    let e = &signing.signers[i];
                    let p = make_one_pass_sig(
                        signing.template.typ(),
                        e.signer.0.public(),
                        e.algo,
                        e.salt.as_slice(),
                        last,
                    );
                    proof {
                        assert(p@ == ops[i as int]);
                        assert(ops.take(i + 1).drop_last() =~= ops.take(i as int));
                    }
                    match inner.write_all(p.as_slice()) {
                        Ok(()) => (),
                        Err(e) => return Err(e),
                    }
                    i = i + 1;
                }
                assert(ops.take(n as int) =~= ops);
                proof {
                    inner.lemma_structured();
                }
                inner.mount(Layer { cookie, filter: Filter::Signer(signing) });
            },
            SignatureMode::Detached => {
                inner.mount(Layer { cookie, filter: Filter::Signer(signing) });
            },
            SignatureMode::Cleartext => {
                // Write the header.
                let mut header: Vec<u8> = Vec::new();
                extend(&mut header, "-----BEGIN PGP SIGNED MESSAGE-----".as_bytes());
                header.push(LF);
                if any_v4 {
                    // All signers use the same algorithm.
                    let name = match algo.text_name() {
                        Ok(name) => name,
                        Err(e) => return Err(e),
                    };
                    extend(&mut header, "Hash: ".as_bytes());
                    extend(&mut header, name.as_bytes());
                    header.push(LF);
                }
                header.push(LF);
                assert(header@ =~= v.cleartext_header());
                match inner.write_all(header.as_slice()) {
                    Ok(()) => (),
                    Err(e) => return Err(e),
                }
                proof {
                    inner.lemma_structured();
                }
                // Install the filter dash-escaping the text below us.
                inner.mount(
                    Layer {
                        cookie: Cookie::new(0),
                        filter: Filter::DashEscape(DashEscapeFilter::new()),
                    },
                );
                inner.mount(Layer { cookie, filter: Filter::Signer(signing) });
                // Install the filter trimming the trailing whitespace above
                // us.
                inner.mount(
                    Layer {
                        cookie: Cookie::new(0),
                        filter: Filter::TrailingWS(TrailingWSFilter::new()),
                    },
                );
            },
        }
        Ok(inner)
    }

    /// Builds the signer, returning the writer stack.
    ///
    /// The most useful filter to push to the writer stack next is the
    /// compressor or the literal writer.
    ///
    /// If it fails, a key is refused, the library of hashes or of random
    /// numbers refused something, or a writer below has failed.
    #[verifier::rlimit(40)]
    pub fn build(self) -> (r: Result<Message>)
        requires
            self.wf(),
        ensures
            match r {
                Ok(m) => self@.refusal() is None && m.wf() && exists|salts: Seq<Seq<u8>>|
                    self@.salts_fit(salts) && m@ == #[trigger] self@.built(salts),
                Err(e) => {
                    ||| self@.refusal() == Some(e@)
                    ||| hash_refused(self@.algo(), e@)
                    ||| self@.refusal() is None && !all_steady(self@.inner) && write_error(e@)
                },
            },
    {
        let algo = self.chosen_algo();
        let size: usize = match algo.salt_size() {
            Ok(n) => n,
            Err(_) => 0,
        };
        let mut salts: Vec<Vec<u8>> = Vec::new();
        let mut i: usize = 0;
        while i < self.signers.len()
            invariant
                i <= self.signers@.len(),
                salts@.len() == i,
                size <= 32,
                forall|j: int|
                    0 <= j < i && (#[trigger] self@.keys[j]).fingerprint.version == 6
                        ==> salts@[j]@.len() == size,
            decreases self.signers@.len() - i,
        {
            assert(self@.keys[i as int] == self.signers@[i as int].signer.0.spec_public());
            if self.signers[i].signer.0.public().version() == 6 {
                match random_bytes(size) {
                    Ok(salt) => salts.push(salt),
                    Err(_) => return Err(Error::Backend),
                }
            } else {
                salts.push(Vec::new());
            }
            i = i + 1;
        }
        proof {
            let views = salt_views(salts@);
            assert forall|j: int| 0 <= j < self@.keys.len() && (
            #[trigger] self@.keys[j]).fingerprint.version == 6 && algo.spec_salt_size()
                is Some implies views[j].len() == algo.spec_salt_size()->0 by {
                assert(views[j] == salts@[j]@);
            }
        }
        self.build_with_salts(salts)
    }
}

} // verus!
