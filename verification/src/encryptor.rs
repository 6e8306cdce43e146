//! The streaming encryptor.

use vstd::prelude::*;
use vstd::string::StringExecFns;

use crate::backend::random_bytes;
use crate::bytes::{copy_range, decimal, extend, to_decimal, to_vec};
use crate::cipher::{
    cipher_refused, schedule, seip2_error, seip2_schedule, AeadEncryptor, AeadView, CfbEncryptor,
    CfbView, AEAD_CHUNK_OCTET,
};
use crate::error::{Error, ErrorView, Result};
use crate::esk::{
    handle_view, is_keyid, make_pkesk3, make_pkesk6, make_skesk4, make_skesk6, pkesk3,
    pkesk3_error, pkesk6, pkesk6_error, skesk4, skesk4_fails, skesk4_opens, skesk6, skesk6_fails,
    skesk6_opens,
};
use crate::framing::Tag;
use crate::hashing::{hash_refused, Context, ContextView};
use crate::key::{Ciphertext, CiphertextView, Key, KeyHandle, KeyHandleView, KeyView};
use crate::pk::{encrypt_for, encrypted_for, pk_error};
use crate::stack::{
    all_steady, exceeds, feed, feed_all, is_limited, lemma_exceeds_limited, lemma_feed_shape,
    lemma_feed_structured, lemma_limited_feed, with_profile, write_error, Cookie, Filter, FilterView, Layer, LayerView, Message, Private,
};
use crate::stream::{next_level, packet_started, start_packet};
use crate::types::{AEADAlgorithm, Features, HashAlgorithm, Profile, SymmetricAlgorithm};

verus! {

/// A recipient of an encrypted message.
#[verifier::ext_equal]
pub struct RecipientView {
    pub handle: Option<KeyHandleView>,
    pub features: Features,
    pub key: KeyView,
}

/// Recipients of an encrypted message.
///
/// To decrypt a message with public key cryptography, the recipient's key
/// is needed, and what its owner's implementation understands.
pub struct Recipient<'a> {
    handle: Option<KeyHandle>,
    features: Features,
    key: &'a Key,
}

impl<'a> View for Recipient<'a> {
    type V = RecipientView;

    closed spec fn view(&self) -> RecipientView {
        RecipientView {
            handle: handle_view(self.handle),
            features: self.features,
            key: self.key@,
        }
    }
}

impl<'a> Recipient<'a> {
    /// Creates a new recipient with an explicit key handle.
    ///
    /// If no features are given, all features that this crate supports are
    /// taken to be understood.
    pub fn new(features: Option<Features>, handle: Option<KeyHandle>, key: &'a Key) -> (r:
        Recipient<'a>)
        ensures
            r@ == (RecipientView {
                handle: handle_view(handle),
                features: match features {
                    Some(f) => f,
                    None => Features { seipdv1: true, seipdv2: true },
                },
                key: key@,
            }),
    {
        let features = match features {
            Some(f) => f,
            None => Features::sequoia(),
        };
        Recipient { handle, features, key }
    }

    /// Creates a recipient out of a key of a certificate, whose owner's
    /// implementation announces the given features.
    ///
    /// A recipient that understands version 2 of the encrypted data packet
    /// is referred to by the fingerprint, any other by the key ID.
    pub fn from_features(features: Option<Features>, key: &'a Key) -> (r: Recipient<'a>)
        ensures
            ({
                let f = match features {
                    Some(f) => f,
                    None => Features { seipdv1: false, seipdv2: false },
                };
                r@ == (RecipientView {
                    handle: Some(
                        if f.seipdv2 {
                            KeyHandleView::Fingerprint(key@.fingerprint)
                        } else {
                            KeyHandleView::KeyID(key@.fingerprint.keyid())
                        },
                    ),
                    features: f,
                    key: key@,
                })
            }),
    {
        let features = match features {
            Some(f) => f,
            None => Features::empty(),
        };
        let handle = if features.supports_seipdv2() {
            KeyHandle::Fingerprint(key.fingerprint().duplicate())
        } else {
            KeyHandle::KeyID(key.keyid())
        };
        Recipient::new(Some(features), Some(handle), key)
    }

    /// Gets the key handle.
    pub fn key_handle(&self) -> (r: Option<KeyHandle>)
        ensures
            handle_view(r) == self@.handle,
    {
        match &self.handle {
            Some(h) => Some(h.duplicate()),
            None => None,
        }
    }

    /// Sets the key handle.
    ///
    /// For version 6 keys, a fingerprint must be given.  Without a handle
    /// the recipient is not named in the message.
    pub fn set_key_handle(self, handle: Option<KeyHandle>) -> (r: Result<Recipient<'a>>)
        ensures
            ({
                let refused = self@.key.fingerprint.version == 6 && (handle_view(handle)
                    matches Some(KeyHandleView::KeyID(_)));
                match r {
                    Ok(x) => !refused && x@ == (RecipientView {
                        handle: handle_view(handle),
                        ..self@
                    }),
                    Err(e) => refused && e@ == ErrorView::InvalidOperation(
                        "need a fingerprint for v6 recipient key"@,
                    ),
                }
            }),
    {
        if self.key.version() == 6 {
            match &handle {
                Some(KeyHandle::KeyID(_)) => {
                    return Err(
                        Error::InvalidOperation(
                            "need a fingerprint for v6 recipient key".to_string(),
                        ),
                    );
                },
                _ => (),
            }
        }
        Ok(Recipient { handle, features: self.features, key: self.key })
    }
}

/// What an encryption draws at random.
#[verifier::ext_equal]
pub struct DrawsView {
    pub salt: Seq<u8>,
    pub session_key: Seq<u8>,
    pub ciphertexts: Seq<CiphertextView>,
    pub s2k_salts: Seq<Seq<u8>>,
    pub nonces: Seq<Seq<u8>>,
    pub iv: Seq<u8>,
}

/// What an encryption draws at random.
pub struct Draws {
    /// The salt that the message key is derived with, in version 2.
    pub salt: Vec<u8>,
    /// The session key, where none is given.
    pub session_key: Vec<u8>,
    /// The session key, encrypted for each recipient.
    pub ciphertexts: Vec<Ciphertext>,
    /// The salt that the key of each password is derived with.
    pub s2k_salts: Vec<Vec<u8>>,
    /// The nonce that the session key is encrypted with for each password,
    /// in version 2.
    pub nonces: Vec<Vec<u8>>,
    /// The block that precedes the data, in version 1.
    pub iv: Vec<u8>,
}

/// The ciphertexts of a vector.
pub open spec fn ciphertext_views(v: Seq<Ciphertext>) -> Seq<CiphertextView> {
    v.map_values(|c: Ciphertext| c@)
}

impl View for Draws {
    type V = DrawsView;

    open spec fn view(&self) -> DrawsView {
        DrawsView {
            salt: self.salt@,
            session_key: self.session_key@,
            ciphertexts: ciphertext_views(self.ciphertexts@),
            s2k_salts: crate::bytes::views(self.s2k_salts@),
            nonces: crate::bytes::views(self.nonces@),
            iv: self.iv@,
        }
    }
}

/// What an [`Encryptor`] is set up to do.
#[verifier::ext_equal]
pub struct EncryptorView {
    pub inner: Seq<LayerView>,
    pub session_key: Option<Seq<u8>>,
    pub recipients: Seq<RecipientView>,
    pub passwords: Seq<Seq<u8>>,
    pub sym_algo: SymmetricAlgorithm,
    pub aead_algo: Option<AEADAlgorithm>,
}

/// The error for a session key of the wrong length.
pub open spec fn wrong_length(algo: SymmetricAlgorithm, len: nat) -> Seq<char> {
    algo.spec_name() + " requires a "@ + decimal(algo.spec_key_size()->0)
        + " bit key, but session key has "@ + decimal(len)
}

impl EncryptorView {
    /// Whether nobody could decrypt the message.
    pub open spec fn for_nobody(self) -> bool {
        self.recipients.len() + self.passwords.len() == 0 && self.session_key is None
    }

    /// Whether there are recipients, and all of them understand version 2 of
    /// the encrypted data packet.
    pub open spec fn all_seipdv2(self) -> bool {
        self.recipients.len() > 0 && forall|i: int|
            0 <= i < self.recipients.len() ==> (#[trigger] self.recipients[i]).features.seipdv2
    }

    /// The mode of authenticated encryption, if version 2 of the encrypted
    /// data packet is made.
    pub open spec fn aead(self) -> Option<AEADAlgorithm> {
        match self.aead_algo {
            Some(a) => Some(a),
            None => if self.all_seipdv2() {
                Some(AEADAlgorithm::OCB)
            } else {
                None
            },
        }
    }

    /// The session key.
    pub open spec fn key(self, draws: DrawsView) -> Seq<u8> {
        match self.session_key {
            Some(sk) => sk,
            None => draws.session_key,
        }
    }

    /// The algorithm, if the packets for the recipients are to tell it.
    pub open spec fn told_algo(self) -> Option<SymmetricAlgorithm> {
        if self.aead() is Some {
            None
        } else {
            Some(self.sym_algo)
        }
    }

    /// The packet for a recipient.
    pub open spec fn pkesk(self, draws: DrawsView, i: int) -> Seq<u8> {
        if self.aead() is Some {
            pkesk6(self.recipients[i].handle, draws.ciphertexts[i])
        } else {
            pkesk3(self.recipients[i].handle, self.sym_algo, draws.ciphertexts[i])
        }
    }

    /// The packet for a password.
    pub open spec fn skesk(self, draws: DrawsView, i: int) -> Seq<u8> {
        match self.aead() {
            Some(aead) => skesk6(
                self.sym_algo,
                aead,
                draws.s2k_salts[i],
                draws.nonces[i],
                self.passwords[i],
                self.key(draws),
            ),
            None => skesk4(
                self.sym_algo,
                draws.s2k_salts[i],
                self.passwords[i],
                self.key(draws),
            ),
        }
    }

    /// Whether whoever knows a password gets the session key out of its
    /// packet.
    pub open spec fn skesk_opens(self, draws: DrawsView, i: int) -> bool {
        match self.aead() {
            Some(aead) => skesk6_opens(
                self.sym_algo,
                aead,
                draws.s2k_salts[i],
                draws.nonces[i],
                self.passwords[i],
                self.key(draws),
            ),
            None => skesk4_opens(
                self.sym_algo,
                draws.s2k_salts[i],
                self.passwords[i],
                self.key(draws),
            ),
        }
    }

    /// Whether whoever knows one of the passwords gets the session key.
    pub open spec fn passwords_open(self, draws: DrawsView) -> bool {
        forall|i: int| 0 <= i < self.passwords.len() ==> #[trigger] self.skesk_opens(draws, i)
    }

    /// The packets for the recipients.
    pub open spec fn pkesks(self, draws: DrawsView) -> Seq<Seq<u8>> {
        Seq::new(self.recipients.len(), |i: int| self.pkesk(draws, i))
    }

    /// The packets for the passwords.
    pub open spec fn skesks(self, draws: DrawsView) -> Seq<Seq<u8>> {
        Seq::new(self.passwords.len(), |i: int| self.skesk(draws, i))
    }

    /// The stack below, with the profile set for version 2.
    pub open spec fn profiled(self) -> Seq<LayerView> {
        if self.aead() is Some {
            with_profile(self.inner, Profile::RFC9580)
        } else {
            self.inner
        }
    }

    /// The encrypted data packet is started.
    pub open spec fn container(self, draws: DrawsView) -> Seq<LayerView> {
        packet_started(
            feed_all(feed_all(self.profiled(), self.pkesks(draws)), self.skesks(draws)),
            Tag::SEIP,
            next_level(self.inner),
        )
    }

    /// The stack that is built, given what was drawn at random.
    pub open spec fn built(self, draws: DrawsView) -> Seq<LayerView> {
        let level = next_level(self.inner);
        match self.aead() {
            Some(aead) => seip2_started(
                self.container(draws),
                level,
                self.sym_algo,
                aead,
                draws.salt,
                self.key(draws),
            ),
            None => seip1_started(
                self.container(draws),
                level,
                self.sym_algo,
                self.key(draws),
                draws.iv,
            ),
        }
    }

    /// Whether what was drawn has the lengths that are asked for.
    pub open spec fn draws_fit(self, draws: DrawsView) -> bool {
        &&& self.aead() is Some ==> draws.salt.len() == 32
        &&& self.session_key is None && self.sym_algo.spec_key_size() is Some
            ==> draws.session_key.len() == self.sym_algo.spec_key_size()->0
        &&& draws.ciphertexts.len() == self.recipients.len()
        &&& draws.s2k_salts.len() == self.passwords.len()
        &&& forall|i: int| 0 <= i < self.passwords.len() ==> (#[trigger] draws.s2k_salts[i]).len()
            == 8
        &&& draws.nonces.len() == self.passwords.len()
        &&& forall|i: int|
            0 <= i < self.passwords.len() && self.aead() is Some
                && self.aead()->0.spec_nonce_size() is Some ==> (#[trigger] draws.nonces[i]).len()
                == self.aead()->0.spec_nonce_size()->0
        &&& self.aead() is None && self.sym_algo.spec_block_size() is Some ==> draws.iv.len()
            == self.sym_algo.spec_block_size()->0
    }

    /// Why nothing is built, whatever is drawn: the first reason counts.
    pub open spec fn refusal(self) -> Option<ErrorView> {
        if self.for_nobody() {
            Some(
                ErrorView::InvalidOperation(
                    "Neither recipients, passwords, nor session key given"@,
                ),
            )
        } else if self.sym_algo.spec_key_size() is None {
            Some(ErrorView::UnsupportedSymmetricAlgorithm(self.sym_algo))
        } else if self.session_key is Some && self.session_key->0.len()
            != self.sym_algo.spec_key_size()->0 {
            Some(
                ErrorView::InvalidOperation(wrong_length(self.sym_algo, self.session_key->0.len())),
            )
        } else {
            None
        }
    }

    /// Why there is no packet for a recipient.
    pub open spec fn pkesk_error(self, draws: DrawsView, i: int) -> Option<ErrorView> {
        if self.aead() is Some {
            pkesk6_error(self.recipients[i].handle, draws.ciphertexts[i])
        } else {
            pkesk3_error(self.recipients[i].handle, self.sym_algo, draws.ciphertexts[i])
        }
    }

    /// Why there are no packets for the recipients, from one on: the first
    /// reason counts.
    pub open spec fn pkesks_error(self, draws: DrawsView, i: int) -> Option<ErrorView>
        decreases self.recipients.len() - i,
    {
        if i < 0 || i >= self.recipients.len() {
            None
        } else {
            match self.pkesk_error(draws, i) {
                Some(e) => Some(e),
                None => self.pkesks_error(draws, i + 1),
            }
        }
    }

    /// Whether a recipient of version 2 of the encrypted data packet is
    /// referred to by a key ID, which that does not allow for.
    pub open spec fn lacks_fingerprint(self) -> bool {
        self.aead() is Some && exists|i: int|
            0 <= i < self.recipients.len() && is_keyid((#[trigger] self.recipients[i]).handle)
    }

    /// Whether the packets for the passwords may not be made, with this error.
    pub open spec fn skesks_fail(self, e: ErrorView) -> bool {
        self.passwords.len() > 0 && match self.aead() {
            Some(aead) => skesk6_fails(self.sym_algo, aead, e),
            None => skesk4_fails(self.sym_algo, e),
        }
    }

    /// Whether the encryption may not be started, with this error: there is no
    /// such cipher, or the cryptographic library refused.
    pub open spec fn cipher_fails(self, draws: DrawsView, e: ErrorView) -> bool {
        match self.aead() {
            Some(aead) => seip2_error(self.sym_algo, aead, draws.salt, self.key(draws)) == Some(e),
            None => cipher_refused(self.sym_algo, e) || hash_refused(HashAlgorithm::SHA1, e),
        }
    }

    /// Whether an encryptor that is not refused may not be built, with this
    /// error, given what was drawn at random.
    pub open spec fn build_fails(self, draws: DrawsView, e: ErrorView) -> bool {
        match self.pkesks_error(draws, 0) {
            Some(x) => e == x || !all_steady(self.inner) && write_error(e),
            None => {
                ||| self.skesks_fail(e)
                ||| self.cipher_fails(draws, e)
                ||| !all_steady(self.inner) && write_error(e)
            },
        }
    }
}

/// Version 2 of the encrypted data packet is started.
pub open spec fn seip2_started(
    container: Seq<LayerView>,
    level: usize,
    symm: SymmetricAlgorithm,
    aead: AEADAlgorithm,
    salt: Seq<u8>,
    session_key: Seq<u8>,
) -> Seq<LayerView> {
    seip2_mounted(
        container,
        level,
        symm,
        aead,
        salt,
        seip2_schedule(symm, aead, salt, session_key),
    )
}

/// The encryption of version 2 is put on the stack.
pub open spec fn seip2_mounted(
    container: Seq<LayerView>,
    level: usize,
    symm: SymmetricAlgorithm,
    aead: AEADAlgorithm,
    salt: Seq<u8>,
    cipher: AeadView,
) -> Seq<LayerView> {
    feed(
        container,
        seq![2u8, symm.spec_octet(), aead.spec_octet(), AEAD_CHUNK_OCTET] + salt,
    ).push(
        LayerView {
            cookie: Cookie {
                level,
                private: Private::Encryptor { profile: Profile::RFC9580 },
            },
            filter: FilterView::Aead(cipher),
        },
    )
}

/// The encryption of version 1 is put on the stack.
pub open spec fn seip1_mounted(
    container: Seq<LayerView>,
    level: usize,
    cipher: CfbView,
) -> Seq<LayerView> {
    feed(container, seq![1u8]).push(
        LayerView {
            cookie: Cookie { level, private: Private::Nothing },
            filter: FilterView::Cfb(cipher),
        },
    ).push(
        LayerView {
            cookie: Cookie {
                level,
                private: Private::Encryptor { profile: Profile::RFC4880 },
            },
            filter: FilterView::Encryptor(Seq::empty()),
        },
    )
}

/// Version 1 of the encrypted data packet is started: the initialization
/// vector is written, and its last two octets once more.
pub open spec fn seip1_started(
    container: Seq<LayerView>,
    level: usize,
    symm: SymmetricAlgorithm,
    session_key: Seq<u8>,
    iv: Seq<u8>,
) -> Seq<LayerView> {
    let cipher = CfbView { algo: symm, key: session_key, data: Seq::empty() };
    feed(feed(seip1_mounted(container, level, cipher), iv), iv.skip(iv.len() - 2))
}

/// Encrypts a message.
///
/// The stream will be encrypted using a generated session key, which will be
/// encrypted using the given passwords, and for all given recipients.
///
/// A stream encrypted with this encryptor is either a version 1 SEIPD
/// packet, or, if all recipients understand it or a mode was selected, a
/// version 2 SEIPD packet.
pub struct Encryptor<'b> {
    inner: Message,
    session_key: Option<Vec<u8>>,
    recipients: Vec<Recipient<'b>>,
    passwords: Vec<Vec<u8>>,
    sym_algo: SymmetricAlgorithm,
    aead_algo: Option<AEADAlgorithm>,
}

/// The recipients of a vector.
pub open spec fn recipient_views<'b>(v: Seq<Recipient<'b>>) -> Seq<RecipientView> {
    v.map_values(|r: Recipient<'b>| r@)
}

impl<'b> View for Encryptor<'b> {
    type V = EncryptorView;

    closed spec fn view(&self) -> EncryptorView {
        EncryptorView {
            inner: self.inner@,
            session_key: match self.session_key {
                Some(sk) => Some(sk@),
                None => None,
            },
            recipients: recipient_views(self.recipients@),
            passwords: crate::bytes::views(self.passwords@),
            sym_algo: self.sym_algo,
            aead_algo: self.aead_algo,
        }
    }
}

fn wrong_length_text(algo: SymmetricAlgorithm, size: usize, len: usize) -> (r: String)
    requires
        algo.spec_key_size() == Some(size as nat),
    ensures
        r@ == wrong_length(algo, len as nat),
{
    let a: String = to_decimal(size as u64);
    let b: String = to_decimal(len as u64);
    String::from_str(algo.name()).concat(" requires a ").concat(a.as_str()).concat(
        " bit key, but session key has ",
    ).concat(b.as_str())
}

impl<'b> Encryptor<'b> {
    pub closed spec fn wf(&self) -> bool {
        self.inner.wf()
    }

    /// Creates a new encryptor for the given recipients.
    ///
    /// To add more recipients, use [`Encryptor::add_recipients`]; to add
    /// passwords, use [`Encryptor::add_passwords`].
    pub fn for_recipients(inner: Message, recipients: Vec<Recipient<'b>>) -> (r: Encryptor<'b>)
        requires
            inner.wf(),
        ensures
            r.wf(),
            r@ == (EncryptorView {
                inner: inner@,
                session_key: None,
                recipients: recipient_views(recipients@),
                passwords: Seq::empty(),
                sym_algo: SymmetricAlgorithm::AES256,
                aead_algo: None,
            }),
    {
        let r = Encryptor {
            inner,
            session_key: None,
            recipients,
            passwords: Vec::new(),
            sym_algo: SymmetricAlgorithm::default(),
            aead_algo: None,
        };
        assert(r@.passwords =~= Seq::<Seq<u8>>::empty());
        r
    }

    /// Creates a new encryptor for the given passwords.
    ///
    /// To add more passwords, use [`Encryptor::add_passwords`]; to add
    /// recipients, use [`Encryptor::add_recipients`].
    pub fn with_passwords(inner: Message, passwords: Vec<Vec<u8>>) -> (r: Encryptor<'b>)
        requires
            inner.wf(),
        ensures
            r.wf(),
            r@ == (EncryptorView {
                inner: inner@,
                session_key: None,
                recipients: Seq::empty(),
                passwords: crate::bytes::views(passwords@),
                sym_algo: SymmetricAlgorithm::AES256,
                aead_algo: None,
            }),
    {
        let r = Encryptor {
            inner,
            session_key: None,
            recipients: Vec::new(),
            passwords,
            sym_algo: SymmetricAlgorithm::default(),
            aead_algo: None,
        };
        assert(r@.recipients =~= Seq::<RecipientView>::empty());
        r
    }

    /// Creates a new encryptor with the given session key.
    ///
    /// This is useful when combined with packets that hold an encrypted
    /// session key and that are created elsewhere.  The session key must be
    /// as long as the keys of the algorithm.
    pub fn with_session_key(
        inner: Message,
        sym_algo: SymmetricAlgorithm,
        session_key: Vec<u8>,
    ) -> (r: Result<Encryptor<'b>>)
        requires
            inner.wf(),
        ensures
            match r {
                Ok(e) => sym_algo.spec_key_size() == Some(session_key@.len()) && e.wf() && e@ == (
                EncryptorView {
                    inner: inner@,
                    session_key: Some(session_key@),
                    recipients: Seq::empty(),
                    passwords: Seq::empty(),
                    sym_algo,
                    aead_algo: None,
                }),
                Err(e) => {
                    ||| sym_algo.spec_key_size() is None && e@
                        == ErrorView::UnsupportedSymmetricAlgorithm(sym_algo)
                    ||| sym_algo.spec_key_size() is Some && sym_algo.spec_key_size()->0
                        != session_key@.len() && e@ == ErrorView::InvalidArgument(
                        wrong_length(sym_algo, session_key@.len()),
                    )
                },
            },
    {
        let size: usize = match sym_algo.key_size() {
            Ok(size) => size,
            Err(e) => return Err(e),
        };
        if session_key.len() != size {
            return Err(
                Error::InvalidArgument(wrong_length_text(sym_algo, size, session_key.len())),
            );
        }
        let r = Encryptor {
            inner,
            session_key: Some(session_key),
            recipients: Vec::new(),
            passwords: Vec::new(),
            sym_algo,
            aead_algo: None,
        };
        assert(r@.recipients =~= Seq::<RecipientView>::empty());
        assert(r@.passwords =~= Seq::<Seq<u8>>::empty());
        Ok(r)
    }

    /// Adds recipients.
    ///
    /// The resulting message can be decrypted by any recipient and with any
    /// password.
    pub fn add_recipients(self, recipients: Vec<Recipient<'b>>) -> (r: Encryptor<'b>)
        requires
            self.wf(),
        ensures
            r.wf(),
            r@ == (EncryptorView {
                recipients: self@.recipients + recipient_views(recipients@),
                ..self@
            }),
    {
        let ghost was = self@;
        let mut more = recipients;
        let mut r = self;
        r.recipients.append(&mut more);
        assert(r@.recipients =~= was.recipients + recipient_views(recipients@));
        r
    }

    /// Adds passwords to encrypt with.
    ///
    /// The resulting message can be decrypted with any password and by any
    /// recipient.
    pub fn add_passwords(self, passwords: Vec<Vec<u8>>) -> (r: Encryptor<'b>)
        requires
            self.wf(),
        ensures
            r.wf(),
            r@ == (EncryptorView {
                passwords: self@.passwords + crate::bytes::views(passwords@),
                ..self@
            }),
    {
        let ghost was = self@;
        let mut more = passwords;
        let mut r = self;
        r.passwords.append(&mut more);
        assert(r@.passwords =~= was.passwords + crate::bytes::views(passwords@));
        r
    }

    /// Sets the symmetric algorithm to use.
    pub fn symmetric_algo(self, algo: SymmetricAlgorithm) -> (r: Encryptor<'b>)
        requires
            self.wf(),
        ensures
            r.wf(),
            r@ == (EncryptorView { sym_algo: algo, ..self@ }),
    {
        let mut r = self;
        r.sym_algo = algo;
        r
    }

    /// Enables AEAD and sets the AEAD algorithm to use.
    ///
    /// This feature is only understood by implementations of [RFC 9580].
    ///
    ///   [RFC 9580]: https://www.rfc-editor.org/rfc/rfc9580.html
    pub fn aead_algo(self, algo: AEADAlgorithm) -> (r: Encryptor<'b>)
        requires
            self.wf(),
        ensures
            r.wf(),
            r@ == (EncryptorView { aead_algo: Some(algo), ..self@ }),
    {
        let mut r = self;
        r.aead_algo = Some(algo);
        r
    }

    fn chosen_aead(&self) -> (r: Option<AEADAlgorithm>)
        ensures
            r == self@.aead(),
    {
        match self.aead_algo {
            Some(a) => return Some(a),
            None => (),
        }
        // See whether all recipients support SEIPDv2.
        if self.recipients.len() == 0 {
            return None;
        }
        let mut i: usize = 0;
        while i < self.recipients.len()
            invariant
                i <= self.recipients@.len(),
                self.aead_algo is None,
                forall|j: int| 0 <= j < i ==> (#[trigger] self@.recipients[j]).features.seipdv2,
            decreases self.recipients@.len() - i,
        {
            assert(self@.recipients[i as int] == self.recipients@[i as int]@);
            if !self.recipients[i].features.supports_seipdv2() {
                return None;
            }
            i = i + 1;
        }
        // This prefers OCB, which every implementation must have.
        Some(AEADAlgorithm::default())
    }

    /// Why nothing is built, whatever is drawn.
    fn check(&self) -> (r: Result<usize>)
        ensures
            match r {
                Ok(size) => self@.refusal() is None && self@.sym_algo.spec_key_size() == Some(
                    size as nat,
                ),
                Err(e) => self@.refusal() == Some(e@),
            },
    {
        if self.recipients.len() == 0 && self.passwords.len() == 0 && self.session_key.is_none() {
            return Err(
                Error::InvalidOperation(
                    "Neither recipients, passwords, nor session key given".to_string(),
                ),
            );
        }
        let size: usize = match self.sym_algo.key_size() {
            Ok(size) => size,
            Err(e) => return Err(e),
        };
        match &self.session_key {
            Some(sk) => {
                if sk.len() != size {
                    return Err(
                        Error::InvalidOperation(
                            wrong_length_text(self.sym_algo, size, sk.len()),
                        ),
                    );
                }
            },
            None => (),
        }
        Ok(size)
    }
}

/// Whether there are packets for the recipients does not depend on the stack.
proof fn lemma_same_pkesks_error(a: EncryptorView, b: EncryptorView, draws: DrawsView, i: int)
    requires
        a.recipients == b.recipients,
        a.sym_algo == b.sym_algo,
        a.aead_algo == b.aead_algo,
    ensures
        a.pkesks_error(draws, i) == b.pkesks_error(draws, i),
    decreases a.recipients.len() - i,
{
    if 0 <= i < a.recipients.len() {
        lemma_same_pkesks_error(a, b, draws, i + 1);
    }
}

/// If there are packets for all recipients, there is one for each.
proof fn lemma_no_pkesk_error(v: EncryptorView, draws: DrawsView, i: int, j: int)
    requires
        0 <= i <= j < v.recipients.len(),
        v.pkesks_error(draws, i) is None,
    ensures
        v.pkesk_error(draws, j) is None,
    decreases j - i,
{
    if i < j {
        lemma_no_pkesk_error(v, draws, i + 1, j);
    }
}

/// The encryption of version 1 limits nothing.
proof fn lemma_not_limited(container: Seq<LayerView>, level: usize, cipher: CfbView)
    requires
        all_steady(container),
    ensures
        !is_limited(seip1_mounted(container, level, cipher)),
{
    let fed = feed(container, seq![1u8]);
    let ls = seip1_mounted(container, level, cipher);
    lemma_feed_shape(container, seq![1u8]);
    assert forall|i: int| 0 <= i < ls.len() implies !((#[trigger] ls[i]).filter is Aead) by {
        if i < container.len() {
            assert(ls[i] == fed[i]);
            assert(fed[i].filter.same(container[i].filter));
            assert(container[i].filter.steady());
        }
    }
}

/// Starts version 2 of the encrypted data packet, given the cipher or why
/// there is none.
pub fn start_seip2(
    message: &mut Message,
    level: usize,
    symm: SymmetricAlgorithm,
    aead: AEADAlgorithm,
    salt: &[u8],
    cipher: Result<AeadEncryptor>,
) -> (r: Result<()>)
    requires
        old(message).wf(),
        cipher matches Ok(c) ==> c.wf(),
    ensures
        all_steady(old(message)@) ==> (r is Ok <==> cipher is Ok),
        match r {
            Ok(_) => cipher is Ok && final(message).wf() && final(message)@ == seip2_mounted(
                old(message)@,
                level,
                symm,
                aead,
                salt@,
                cipher->Ok_0@,
            ),
            Err(e) => {
                ||| !all_steady(old(message)@) && write_error(e@)
                ||| cipher is Err && e@ == cipher->Err_0@
            },
        },
{
    let mut header: Vec<u8> = Vec::new();
    header.push(2);
    header.push(symm.octet());
    header.push(aead.octet());
    header.push(AEAD_CHUNK_OCTET);
    extend(&mut header, salt);
    assert(header@ =~= seq![2u8, symm.spec_octet(), aead.spec_octet(), AEAD_CHUNK_OCTET] + salt@);
    match message.write_all(header.as_slice()) {
        Ok(()) => (),
        Err(e) => return Err(e),
    }
    let cipher = match cipher {
        Ok(cipher) => cipher,
        Err(e) => return Err(e),
    };
    let cookie = Cookie::new(level).set_private(
        Private::Encryptor { profile: Profile::RFC9580 },
    );
    proof {
        message.lemma_structured();
    }
    message.mount(Layer { cookie, filter: Filter::Aead(cipher) });
    Ok(())
}

/// Puts the encryption of version 1 on the framing of an encrypted data
/// packet, given the cipher and the hash or why there are none.
#[verifier::rlimit(40)]
pub fn start_seip1(
    message: &mut Message,
    level: usize,
    cipher: Result<CfbEncryptor>,
    hash: Result<Context>,
) -> (r: Result<()>)
    requires
        old(message).wf(),
        old(message)@.len() >= 2,
        old(message)@.last().filter is Partial,
        cipher matches Ok(c) ==> c.wf() && c@.opens(),
        hash matches Ok(h) ==> h.wf() && h@ == (ContextView {
            algo: HashAlgorithm::SHA1,
            data: Seq::empty(),
        }),
    ensures
        all_steady(old(message)@) ==> (r is Ok <==> cipher is Ok && hash is Ok),
        match r {
            Ok(_) => cipher is Ok && hash is Ok && final(message).wf() && final(message)@
                == seip1_mounted(old(message)@, level, cipher->Ok_0@),
            Err(e) => {
                ||| !all_steady(old(message)@) && write_error(e@)
                ||| cipher is Err && e@ == cipher->Err_0@
                ||| cipher is Ok && hash is Err && e@ == hash->Err_0@
            },
        },
{
    let ghost ls = message@;
    proof {
        message.lemma_structured();
    }
    // Version.
    let version: Vec<u8> = vec![1];
    assert(version@ =~= seq![1u8]);
    proof {
        lemma_feed_structured(ls, version@);
        assert(feed(ls, version@)[ls.len() - 1].filter.same(ls[ls.len() - 1].filter));
    }
    match message.write_all(version.as_slice()) {
        Ok(()) => (),
        Err(e) => return Err(e),
    }
    // Install encryptor.
    let cipher = match cipher {
        Ok(cipher) => cipher,
        Err(e) => return Err(e),
    };
    message.mount(Layer { cookie: Cookie::new(level), filter: Filter::Cfb(cipher) });
    let hash = match hash {
        Ok(hash) => hash,
        Err(e) => return Err(e),
    };
    let cookie = Cookie::new(level).set_private(
        Private::Encryptor { profile: Profile::RFC4880 },
    );
    message.mount(Layer { cookie, filter: Filter::Encryptor(hash) });
    Ok(())
}

/// Writes the initialization vector, and the quick-check bytes.  The hash for
/// the packet that detects modifications must include the initialization
/// vector, hence this is written once the encryptor is installed.
fn write_iv(message: &mut Message, iv: &[u8]) -> (r: Result<()>)
    requires
        old(message).wf(),
        iv@.len() >= 2,
    ensures
        match r {
            Ok(_) => final(message).wf() && final(message)@ == feed(
                feed(old(message)@, iv@),
                iv@.skip(iv@.len() - 2),
            ),
            Err(e) => e@ is Backend || e@ is TooLarge && is_limited(old(message)@),
        },
{
    let ghost ls = message@;
    let check = copy_range(iv, iv.len() - 2, iv.len());
    assert(check@ =~= iv@.skip(iv@.len() - 2));
    proof {
        lemma_limited_feed(ls, iv@);
        if exceeds(ls, iv@) {
            lemma_exceeds_limited(ls, iv@);
        }
        if exceeds(feed(ls, iv@), check@) {
            lemma_exceeds_limited(feed(ls, iv@), check@);
        }
    }
    match message.write_all(iv) {
        Ok(()) => (),
        Err(e) => return Err(e),
    }
    message.write_all(check.as_slice())
}

impl<'b> Encryptor<'b> {
    /// Writes the packets for the recipients.
    fn write_pkesks(&self, message: &mut Message, v2: bool, draws: &Draws) -> (r: Result<()>)
        requires
            old(message).wf(),
            v2 == (self@.aead() is Some),
            self@.draws_fit(draws@),
        ensures
            match r {
                Ok(_) => final(message).wf() && final(message)@ == feed_all(
                    old(message)@,
                    self@.pkesks(draws@),
                ) && self@.pkesks_error(draws@, 0) is None && (all_steady(old(message)@)
                    ==> all_steady(final(message)@)),
                Err(e) => {
                    ||| self@.pkesks_error(draws@, 0) == Some(e@)
                    ||| !all_steady(old(message)@) && write_error(e@)
                },
            },
    {
        let ghost ls = message@;
        let ghost all = self@.pkesks(draws@);
        let mut i: usize = 0;
        proof {
            assert(all.take(0) =~= Seq::<Seq<u8>>::empty());
        }
        while i < self.recipients.len()
            invariant
                i <= self.recipients@.len(),
                draws.ciphertexts@.len() == self.recipients@.len(),
                v2 == (self@.aead() is Some),
                all == self@.pkesks(draws@),
                message.wf(),
                ls == old(message)@,
                all_steady(ls) ==> all_steady(message@),
                message@ == feed_all(ls, all.take(i as int)),
                self@.pkesks_error(draws@, 0) == self@.pkesks_error(draws@, i as int),
            decreases self.recipients@.len() - i,
        {
            proof {
                assert(self@.recipients[i as int] == self.recipients@[i as int]@);
                assert(draws@.ciphertexts[i as int] == draws.ciphertexts@[i as int]@);
                assert(all.take(i + 1).drop_last() =~= all.take(i as int));
            }
            let p = if v2 {
                make_pkesk6(&self.recipients[i].handle, &draws.ciphertexts[i])
            } else {
                make_pkesk3(&self.recipients[i].handle, self.sym_algo, &draws.ciphertexts[i])
            };
            match p {
                Ok(p) => match message.write_all(p.as_slice()) {
                    Ok(()) => (),
                    Err(e) => return Err(e),
                },
                Err(e) => return Err(e),
            }
            i = i + 1;
        }
        assert(all.take(all.len() as int) =~= all);
        Ok(())
    }

    /// Writes the packets for the passwords.
    fn write_skesks(
        &self,
        message: &mut Message,
        aead: Option<AEADAlgorithm>,
        draws: &Draws,
        sk: &[u8],
    ) -> (r: Result<()>)
        requires
            old(message).wf(),
            aead == self@.aead(),
            sk@ == self@.key(draws@),
            sk@.len() <= 32,
            self@.draws_fit(draws@),
        ensures
            match r {
                Ok(_) => final(message).wf() && final(message)@ == feed_all(
                    old(message)@,
                    self@.skesks(draws@),
                ) && self@.passwords_open(draws@) && (all_steady(old(message)@) ==> all_steady(
                    final(message)@,
                )),
                Err(e) => {
                    ||| self@.skesks_fail(e@)
                    ||| !all_steady(old(message)@) && write_error(e@)
                },
            },
    {
        let ghost ls = message@;
        let ghost all = self@.skesks(draws@);
        let mut i: usize = 0;
        proof {
            assert(all.take(0) =~= Seq::<Seq<u8>>::empty());
        }
        while i < self.passwords.len()
            invariant
                i <= self.passwords@.len(),
                draws.s2k_salts@.len() == self.passwords@.len(),
                draws.nonces@.len() == self.passwords@.len(),
                aead == self@.aead(),
                sk@ == self@.key(draws@),
                sk@.len() <= 32,
                self@.draws_fit(draws@),
                all == self@.skesks(draws@),
                forall|j: int| 0 <= j < i ==> #[trigger] self@.skesk_opens(draws@, j),
                message.wf(),
                ls == old(message)@,
                all_steady(ls) ==> all_steady(message@),
                message@ == feed_all(ls, all.take(i as int)),
            decreases self.passwords@.len() - i,
        {
            proof {
                assert(self@.passwords[i as int] == self.passwords@[i as int]@);
                assert(draws@.s2k_salts[i as int] == draws.s2k_salts@[i as int]@);
                assert(draws@.s2k_salts[i as int].len() == 8);
                assert(draws@.nonces[i as int] == draws.nonces@[i as int]@);
                assert(all.take(i + 1).drop_last() =~= all.take(i as int));
            }
            let p = match aead {
                Some(aead) => make_skesk6(
                    self.sym_algo,
                    aead,
                    draws.s2k_salts[i].as_slice(),
                    draws.nonces[i].as_slice(),
                    self.passwords[i].as_slice(),
                    sk,
                ),
                None => make_skesk4(
                    self.sym_algo,
                    draws.s2k_salts[i].as_slice(),
                    self.passwords[i].as_slice(),
                    sk,
                ),
            };
            match p {
                Ok(p) => match message.write_all(p.as_slice()) {
                    Ok(()) => (),
                    Err(e) => return Err(e),
                },
                Err(e) => return Err(e),
            }
            i = i + 1;
        }
        assert(all.take(all.len() as int) =~= all);
        Ok(())
    }
}

impl<'b> Encryptor<'b> {
    /// Builds the encryptor, given what is drawn at random, and returns the
    /// writer stack.
    #[verifier::rlimit(40)]
    pub fn build_with(self, draws: Draws) -> (r: Result<Message>)
        requires
            self@.draws_fit(draws@),
            self.wf(),
        ensures
            self@.refusal() matches Some(x) ==> r is Err && r->Err_0@ == x,
            match r {
                Ok(m) => m.wf() && m@ == self@.built(draws@) && self@.passwords_open(draws@)
                    && self@.pkesks_error(draws@, 0) is None && !self@.lacks_fingerprint(),
                Err(e) => self@.refusal() == Some(e@) || self@.build_fails(draws@, e@),
            },
    {
        let ghost v = self@;
        let size: usize = match self.check() {
            Ok(size) => size,
            Err(e) => return Err(e),
        };
        let aead = self.chosen_aead();
        let level: usize = self.inner.cookie().level.saturating_add(1);
        // Reuse existing session key or generate a new one.
        let sk: Vec<u8> = match &self.session_key {
            Some(sk) => to_vec(sk.as_slice()),
            None => to_vec(draws.session_key.as_slice()),
        };
        assert(sk@ == v.key(draws@));
        let mut me = self;
        let mut inner = Message::new(Vec::new());
        std::mem::swap(&mut inner, &mut me.inner);
        let ghost same = EncryptorView { inner: v.inner, ..me@ };
        proof {
            assert(same =~= v);
            assert(me@.aead() == v.aead());
            assert(me@.pkesks(draws@) =~= v.pkesks(draws@));
            lemma_same_pkesks_error(me@, v, draws@, 0);
            if v.pkesks_error(draws@, 0) is None && v.lacks_fingerprint() {
                let i = choose|i: int|
                    0 <= i < v.recipients.len() && is_keyid((#[trigger] v.recipients[i]).handle);
                lemma_no_pkesk_error(v, draws@, 0, i);
            }
            assert(me@.skesks(draws@) =~= v.skesks(draws@));
            assert forall|i: int| me@.skesk_opens(draws@, i) implies #[trigger] v.skesk_opens(
                draws@,
                i,
            ) by {}
        }
        // Configure any armor writer above us.
        if aead.is_some() {
            inner.set_profile(Profile::RFC9580);
        }
        // Write the PKESK packet(s).
        match me.write_pkesks(&mut inner, aead.is_some(), &draws) {
            Ok(()) => (),
            Err(e) => return Err(e),
        }
        // Write the SKESK packet(s).
        match me.write_skesks(&mut inner, aead, &draws, sk.as_slice()) {
            Ok(()) => (),
            Err(e) => return Err(e),
        }
        proof {
            inner.lemma_structured();
        }
        match start_packet(&mut inner, Tag::SEIP, level) {
            Ok(()) => (),
            Err(e) => return Err(e),
        }
        assert(inner@ == v.container(draws@));
        match aead {
            // Write the SEIPDv2 packet.
            Some(aead) => {
                let salt = draws.salt.as_slice();
                let cipher = schedule(me.sym_algo, aead, salt, sk.as_slice());
                match start_seip2(&mut inner, level, me.sym_algo, aead, salt, cipher) {
                    Ok(()) => Ok(inner),
                    Err(e) => Err(e),
                }
            },
            // Write the SEIPDv1 packet.
            None => {
                let cipher = CfbEncryptor::new(me.sym_algo, sk.as_slice());
                let hash = Context::new(HashAlgorithm::SHA1);
                match start_seip1(&mut inner, level, cipher, hash) {
                    Ok(()) => (),
                    Err(e) => return Err(e),
                }
                proof {
                    if all_steady(v.inner) {
                        lemma_not_limited(
                            v.container(draws@),
                            level,
                            CfbView { algo: v.sym_algo, key: sk@, data: Seq::empty() },
                        );
                    }
                }
                match write_iv(&mut inner, draws.iv.as_slice()) {
                    Ok(()) => Ok(inner),
                    Err(e) => Err(e),
                }
            },
        }
    }

    /// Draws at random what the encryption needs.
    #[verifier::rlimit(40)]
    fn draw(&self, size: usize) -> (r: Result<Draws>)
        requires
            self@.refusal() is None,
            self@.sym_algo.spec_key_size() == Some(size as nat),
        ensures
            match r {
                Ok(draws) => {
                    &&& self@.draws_fit(draws@)
                    &&& forall|i: int|
                        0 <= i < self@.recipients.len() ==> encrypted_for(
                            (#[trigger] self@.recipients[i]).key,
                            self@.told_algo(),
                            self@.key(draws@),
                            draws@.ciphertexts[i],
                        )
                },
                Err(e) => {
                    ||| e@ is Backend
                    ||| exists|i: int|
                        0 <= i < self@.recipients.len() && pk_error(
                            (#[trigger] self@.recipients[i]).key,
                            e@,
                        )
                },
            },
    {
        let aead = self.chosen_aead();
        let mut salt: Vec<u8> = Vec::new();
        let mut iv: Vec<u8> = Vec::new();
        if aead.is_some() {
            match random_bytes(32) {
                Ok(octets) => salt = octets,
                Err(_) => return Err(Error::Backend),
            }
        } else {
            let block: usize = match self.sym_algo.block_size() {
                Ok(block) => block,
                Err(_) => 0,
            };
            match random_bytes(block) {
                Ok(octets) => iv = octets,
                Err(_) => return Err(Error::Backend),
            }
        }
        let mut session_key: Vec<u8> = Vec::new();
        if self.session_key.is_none() {
            match random_bytes(size) {
                Ok(octets) => session_key = octets,
                Err(_) => return Err(Error::Backend),
            }
        }
        let mut s2k_salts: Vec<Vec<u8>> = Vec::new();
        let mut nonces: Vec<Vec<u8>> = Vec::new();
        let nonce_size: usize = match aead {
            Some(aead) => match aead.nonce_size() {
                Ok(n) => n,
                Err(_) => 0,
            },
            None => 0,
        };
        let mut i: usize = 0;
        while i < self.passwords.len()
            invariant
                i <= self.passwords@.len(),
                nonce_size <= 16,
                aead is Some || nonce_size == 0,
                s2k_salts@.len() == i,
                nonces@.len() == i,
                forall|j: int| 0 <= j < i ==> (#[trigger] s2k_salts@[j])@.len() == 8,
                forall|j: int| 0 <= j < i ==> (#[trigger] nonces@[j])@.len() == nonce_size,
            decreases self.passwords@.len() - i,
        {
            match random_bytes(8) {
                Ok(salt) => s2k_salts.push(salt),
                Err(_) => return Err(Error::Backend),
            }
            if aead.is_some() {
                match random_bytes(nonce_size) {
                    Ok(nonce) => nonces.push(nonce),
                    Err(_) => return Err(Error::Backend),
                }
            } else {
                nonces.push(Vec::new());
            }
            i = i + 1;
        }
        let algo: Option<SymmetricAlgorithm> = if aead.is_some() {
            None
        } else {
            Some(self.sym_algo)
        };
        let sk: Vec<u8> = match &self.session_key {
            Some(sk) => to_vec(sk.as_slice()),
            None => to_vec(session_key.as_slice()),
        };
        let mut ciphertexts: Vec<Ciphertext> = Vec::new();
        let mut i: usize = 0;
        while i < self.recipients.len()
            invariant
                i <= self.recipients@.len(),
                sk@.len() <= 32,
                algo == self@.told_algo(),
                ciphertexts@.len() == i,
                forall|j: int|
                    0 <= j < i ==> encrypted_for(
                        (#[trigger] self@.recipients[j]).key,
                        algo,
                        sk@,
                        ciphertexts@[j]@,
                    ),
            decreases self.recipients@.len() - i,
        {
            assert(self@.recipients[i as int] == self.recipients@[i as int]@);
            match encrypt_for(self.recipients[i].key, algo, sk.as_slice()) {
                Ok(c) => ciphertexts.push(c),
                Err(e) => {
                    assert(pk_error(self@.recipients[i as int].key, e@));
                    return Err(e);
                },
            }
            i = i + 1;
        }
        let draws = Draws { salt, session_key, ciphertexts, s2k_salts, nonces, iv };
        proof {
            let d = draws@;
            assert forall|j: int| 0 <= j < self@.passwords.len() implies (
            #[trigger] d.s2k_salts[j]).len() == 8 by {
                assert(d.s2k_salts[j] == draws.s2k_salts@[j]@);
            }
            assert forall|j: int|
                0 <= j < self@.passwords.len() && self@.aead() is Some
                    && self@.aead()->0.spec_nonce_size() is Some implies (
            #[trigger] d.nonces[j]).len() == self@.aead()->0.spec_nonce_size()->0 by {
                assert(d.nonces[j] == draws.nonces@[j]@);
            }
            assert(sk@ == self@.key(d));
            assert forall|j: int| 0 <= j < self@.recipients.len() implies encrypted_for(
                (#[trigger] self@.recipients[j]).key,
                self@.told_algo(),
                self@.key(d),
                d.ciphertexts[j],
            ) by {
                assert(d.ciphertexts[j] == draws.ciphertexts@[j]@);
            }
        }
        Ok(draws)
    }

    /// Builds the encryptor, returning the writer stack.
    ///
    /// The most useful filter to push to the writer stack next is the signer
    /// or the literal writer.  Finally, literal data *must* be wrapped using
    /// the literal writer.
    #[verifier::rlimit(40)]
    pub fn build(self) -> (r: Result<Message>)
        requires
            self.wf(),
        ensures
            self@.refusal() matches Some(x) ==> r is Err && r->Err_0@ == x,
            match r {
                Ok(m) => {
                    &&& m.wf()
                    &&& !self@.lacks_fingerprint()
                    &&& exists|draws: DrawsView|
                        {
                            &&& self@.draws_fit(draws)
                            &&& m@ == #[trigger] self@.built(draws)
                            &&& self@.passwords_open(draws)
                            &&& self@.pkesks_error(draws, 0) is None
                            &&& forall|i: int|
                                0 <= i < self@.recipients.len() ==> encrypted_for(
                                    (#[trigger] self@.recipients[i]).key,
                                    self@.told_algo(),
                                    self@.key(draws),
                                    draws.ciphertexts[i],
                                )
                        }
                },
                Err(e) => {
                    ||| self@.refusal() == Some(e@)
                    ||| e@ is Backend
                    ||| exists|draws: DrawsView|
                        self@.draws_fit(draws) && #[trigger] self@.build_fails(draws, e@)
                    ||| exists|i: int|
                        0 <= i < self@.recipients.len() && pk_error(
                            (#[trigger] self@.recipients[i]).key,
                            e@,
                        )
                },
            },
    {
        let size: usize = match self.check() {
            Ok(size) => size,
            Err(e) => return Err(e),
        };
        let draws = match self.draw(size) {
            Ok(draws) => draws,
            Err(e) => return Err(e),
        };
        self.build_with(draws)
    }
}

} // verus!
