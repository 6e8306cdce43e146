//! Signature packets and one-pass signature packets.

use vstd::prelude::*;

use crate::bytes::{be16, be32, extend, push_be16, push_be32, to_vec};
use crate::crypto::{Signature, SignatureView};
use crate::error::{Error, ErrorView, Result};
use crate::framing::{make_packet, packet, Tag};
use crate::key::{Fingerprint, FingerprintView, Key, KeyView};
use crate::types::{HashAlgorithm, SignatureType};

verus! {

pub const CREATION_TIME: u8 = 2;

pub const ISSUER: u8 = 16;

pub const ISSUER_FINGERPRINT: u8 = 33;

pub const INTENDED_RECIPIENT: u8 = 35;

/// A signature subpacket.
#[verifier::ext_equal]
pub struct SubpacketView {
    /// The tag, plus 128 if the subpacket is critical.
    pub octet: u8,
    pub body: Seq<u8>,
}

impl SubpacketView {
    pub open spec fn tag(self) -> int {
        self.octet as int % 128
    }

    /// The octets of the subpacket.
    pub open spec fn octets(self) -> Seq<u8> {
        subpacket_length(self.body.len() as int + 1) + seq![self.octet] + self.body
    }
}

/// The octets that announce a subpacket of `n` octets.
pub open spec fn subpacket_length(n: int) -> Seq<u8> {
    if n < 192 {
        seq![n as u8]
    } else if n < 16320 {
        seq![((n - 192) / 256 + 192) as u8, ((n - 192) % 256) as u8]
    } else {
        seq![0xFFu8] + be32(n)
    }
}

/// The octets of several subpackets.
pub open spec fn area(subpackets: Seq<SubpacketView>) -> Seq<u8>
    decreases subpackets.len(),
{
    if subpackets.len() == 0 {
        Seq::empty()
    } else {
        area(subpackets.drop_last()) + subpackets.last().octets()
    }
}

/// The subpackets that do not have the tag.
pub open spec fn without(subpackets: Seq<SubpacketView>, tag: int) -> Seq<SubpacketView>
    decreases subpackets.len(),
{
    if subpackets.len() == 0 {
        Seq::empty()
    } else if subpackets.last().tag() == tag {
        without(subpackets.drop_last(), tag)
    } else {
        without(subpackets.drop_last(), tag).push(subpackets.last())
    }
}

/// Whether one of the subpackets has the tag.
pub open spec fn has_tag(subpackets: Seq<SubpacketView>, tag: int) -> bool {
    exists|i: int| 0 <= i < subpackets.len() && #[trigger] subpackets[i].tag() == tag
}

/// A signature subpacket.
#[derive(Debug)]
pub struct Subpacket {
    /// The tag, plus 128 if the subpacket is critical.
    pub octet: u8,
    pub body: Vec<u8>,
}

impl View for Subpacket {
    type V = SubpacketView;

    open spec fn view(&self) -> SubpacketView {
        SubpacketView { octet: self.octet, body: self.body@ }
    }
}

/// The subpackets of a vector.
pub open spec fn subpacket_views(v: Seq<Subpacket>) -> Seq<SubpacketView> {
    v.map_values(|s: Subpacket| s@)
}

/// A template for signatures.
#[verifier::ext_equal]
pub struct TemplateView {
    pub typ: SignatureType,
    pub hashed: Seq<SubpacketView>,
    pub unhashed: Seq<SubpacketView>,
}

/// A template for signatures.
#[derive(Debug)]
pub struct SignatureBuilder {
    typ: SignatureType,
    hashed: Vec<Subpacket>,
    unhashed: Vec<Subpacket>,
}

impl View for SignatureBuilder {
    type V = TemplateView;

    closed spec fn view(&self) -> TemplateView {
        TemplateView {
            typ: self.typ,
            hashed: subpacket_views(self.hashed@),
            unhashed: subpacket_views(self.unhashed@),
        }
    }
}

impl SignatureBuilder {
    /// Creates a template without subpackets.
    pub fn new(typ: SignatureType) -> (r: SignatureBuilder)
        ensures
            r@ == (TemplateView { typ, hashed: Seq::empty(), unhashed: Seq::empty() }),
    {
        let r = SignatureBuilder { typ, hashed: Vec::new(), unhashed: Vec::new() };
        assert(r@.hashed =~= Seq::empty());
        assert(r@.unhashed =~= Seq::empty());
        r
    }

    /// Returns the signature type.
    pub fn typ(&self) -> (r: SignatureType)
        ensures
            r == self@.typ,
    {
        self.typ
    }

    /// Changes the signature type.
    pub fn set_type(&mut self, typ: SignatureType)
        ensures
            final(self)@ == (TemplateView { typ, ..old(self)@ }),
    {
        self.typ = typ;
    }

    /// Adds a subpacket that is covered by the signature.
    pub fn add_hashed(&mut self, subpacket: Subpacket)
        ensures
            final(self)@ == (TemplateView {
                hashed: old(self)@.hashed.push(subpacket@),
                ..old(self)@
            }),
    {
        self.hashed.push(subpacket);
        assert(self@.hashed =~= old(self)@.hashed.push(subpacket@));
    }

    /// Adds a subpacket that is not covered by the signature.
    pub fn add_unhashed(&mut self, subpacket: Subpacket)
        ensures
            final(self)@ == (TemplateView {
                unhashed: old(self)@.unhashed.push(subpacket@),
                ..old(self)@
            }),
    {
        self.unhashed.push(subpacket);
        assert(self@.unhashed =~= old(self)@.unhashed.push(subpacket@));
    }
}

/// Everything that determines a signature but the digest and the numbers.
#[verifier::ext_equal]
pub struct SignatureParams {
    pub template: TemplateView,
    pub key: KeyView,
    pub algo: HashAlgorithm,
    pub salt: Seq<u8>,
    /// The creation time in seconds since the epoch.
    pub time: int,
    pub recipients: Seq<FingerprintView>,
}

/// The subpacket that says when the signature was made.
pub open spec fn creation_time(time: int) -> SubpacketView {
    SubpacketView { octet: (CREATION_TIME + 128) as u8, body: be32(time) }
}

/// The subpacket that says for whom the signed data is.
pub open spec fn intended_recipient(fp: FingerprintView) -> SubpacketView {
    SubpacketView { octet: INTENDED_RECIPIENT, body: seq![fp.version] + fp.octets }
}

/// The subpacket that says by which key the signature was made.
pub open spec fn issuer_fingerprint(fp: FingerprintView) -> SubpacketView {
    SubpacketView { octet: ISSUER_FINGERPRINT, body: seq![fp.version] + fp.octets }
}

/// The subpacket that says by which key the signature was made, by the key
/// ID.
pub open spec fn issuer(fp: FingerprintView) -> SubpacketView {
    SubpacketView { octet: ISSUER, body: fp.keyid() }
}

impl SignatureParams {
    /// Whether the template names the issuer itself.
    pub open spec fn names_issuer(self) -> bool {
        ||| has_tag(self.template.hashed, ISSUER as int)
        ||| has_tag(self.template.hashed, ISSUER_FINGERPRINT as int)
        ||| has_tag(self.template.unhashed, ISSUER as int)
        ||| has_tag(self.template.unhashed, ISSUER_FINGERPRINT as int)
    }

    /// The subpackets that the signature covers.
    pub open spec fn hashed(self) -> Seq<SubpacketView> {
        let timed = without(self.template.hashed, CREATION_TIME as int).push(
            creation_time(self.time),
        );
        let addressed = if self.recipients.len() == 0 {
            timed
        } else {
            without(timed, INTENDED_RECIPIENT as int) + self.recipients.map_values(
                |fp: FingerprintView| intended_recipient(fp),
            )
        };
        if self.names_issuer() {
            addressed
        } else {
            addressed.push(issuer_fingerprint(self.key.fingerprint))
        }
    }

    /// The subpackets that the signature does not cover.
    pub open spec fn unhashed(self) -> Seq<SubpacketView> {
        if self.names_issuer() || self.key.fingerprint.version != 4 {
            self.template.unhashed
        } else {
            self.template.unhashed.push(issuer(self.key.fingerprint))
        }
    }

    /// An area, with its length before it.
    pub open spec fn counted(self, a: Seq<u8>) -> Seq<u8> {
        if self.key.fingerprint.version == 6 {
            be32(a.len() as int) + a
        } else {
            be16(a.len() as int) + a
        }
    }

    /// The part of the signature packet that the signature covers.
    pub open spec fn head(self) -> Seq<u8> {
        seq![
            self.key.fingerprint.version,
            self.template.typ.spec_octet(),
            self.key.mpis.algo().spec_octet(),
            self.algo.spec_octet(),
        ] + self.counted(area(self.hashed()))
    }

    /// What is hashed after the data.
    pub open spec fn trailer(self) -> Seq<u8> {
        self.head() + seq![self.key.fingerprint.version, 0xFF] + be32(self.head().len() as int)
    }

    /// The body of the signature packet.
    pub open spec fn body(self, digest: Seq<u8>, sig: SignatureView) -> Seq<u8> {
        self.head() + self.counted(area(self.unhashed())) + digest.take(2) + (
        if self.key.fingerprint.version == 6 {
            seq![self.salt.len() as u8] + self.salt
        } else {
            Seq::empty()
        }) + sig.octets()
    }

    /// The largest length of an area.
    pub open spec fn area_limit(self) -> int {
        if self.key.fingerprint.version == 6 {
            0xFFFF_FFFF
        } else {
            0xFFFF
        }
    }

    /// Whether the areas are not too large.
    pub open spec fn areas_fit(self) -> bool {
        &&& area(self.hashed()).len() <= self.area_limit()
        &&& area(self.unhashed()).len() <= self.area_limit()
    }

    /// Whether the digest and the numbers make a packet that is not too
    /// large.
    pub open spec fn packs(self, digest: Seq<u8>, sig: SignatureView) -> bool {
        &&& sig.fits()
        &&& self.body(digest, sig).len() <= u32::MAX
    }

    /// Whether the creation time can be written down.
    pub open spec fn time_fits(self) -> bool {
        0 <= self.time <= u32::MAX
    }
}

fn push_subpacket(out: &mut Vec<u8>, octet: u8, body: &[u8]) -> (r: Result<()>)
    ensures
        match r {
            Ok(_) => final(out)@ == old(out)@ + (SubpacketView { octet, body: body@ }).octets(),
            Err(e) => body@.len() >= u32::MAX && e@ is TooLarge,
        },
{
    if body.len() >= 0xFFFF_FFFF {
        return Err(Error::TooLarge);
    }
    let n: usize = body.len() + 1;
    if n < 192 {
        out.push(n as u8);
    } else if n < 16320 {
        out.push(((n - 192) / 256 + 192) as u8);
        out.push(((n - 192) % 256) as u8);
    } else {
        out.push(0xFF);
        push_be32(out, n as u32);
    }
    out.push(octet);
    extend(out, body);
    assert(out@ =~= old(out)@ + (SubpacketView { octet, body: body@ }).octets());
    Ok(())
}

/// A subpacket is no shorter than its body.
proof fn lemma_area_bounds(subpackets: Seq<SubpacketView>, i: int)
    requires
        0 <= i < subpackets.len(),
    ensures
        subpackets[i].body.len() < area(subpackets).len(),
    decreases subpackets.len(),
{
    if i < subpackets.len() - 1 {
        lemma_area_bounds(subpackets.drop_last(), i);
    }
}

fn contains_tag(v: &Vec<Subpacket>, tag: u8) -> (r: bool)
    ensures
        r == has_tag(subpacket_views(v@), tag as int),
{
    let mut i: usize = 0;
    let ghost all = subpacket_views(v@);
    while i < v.len()
        invariant
            i <= v@.len(),
            all == subpacket_views(v@),
            forall|j: int| 0 <= j < i ==> #[trigger] all[j].tag() != tag,
        decreases v@.len() - i,
    {
        assert(all[i as int] == v@[i as int]@);
        if v[i].octet % 128 == tag {
            assert(all[i as int].tag() == tag);
            return true;
        }
        i = i + 1;
    }
    false
}

/// Copies the subpackets that do not have the tag.
fn copy_without(v: &Vec<Subpacket>, tag: u8) -> (r: Vec<Subpacket>)
    ensures
        subpacket_views(r@) == without(subpacket_views(v@), tag as int),
{
    let ghost all = subpacket_views(v@);
    let mut r: Vec<Subpacket> = Vec::new();
    let mut i: usize = 0;
    proof {
        assert(all.take(0) =~= Seq::<SubpacketView>::empty());
        assert(subpacket_views(r@) =~= Seq::<SubpacketView>::empty());
    }
    while i < v.len()
        invariant
            i <= v@.len(),
            all == subpacket_views(v@),
            subpacket_views(r@) == without(all.take(i as int), tag as int),
        decreases v@.len() - i,
    {
        proof {
            assert(all.take(i + 1).drop_last() =~= all.take(i as int));
            assert(all.take(i + 1).last() == v@[i as int]@);
        }
        if v[i].octet % 128 != tag {
            let ghost was = r@;
            let copy = Subpacket { octet: v[i].octet, body: to_vec(v[i].body.as_slice()) };
            r.push(copy);
            assert(subpacket_views(r@) =~= subpacket_views(was).push(v@[i as int]@));
        }
        i = i + 1;
    }
    assert(all.take(v@.len() as int) =~= all);
    r
}

fn serialize_area(v: &Vec<Subpacket>, limit: usize) -> (r: Result<Vec<u8>>)
    requires
        limit <= u32::MAX,
    ensures
        match r {
            Ok(a) => a@ == area(subpacket_views(v@)) && a@.len() <= limit,
            Err(e) => area(subpacket_views(v@)).len() > limit && e@ is TooLarge,
        },
{
    let ghost all = subpacket_views(v@);
    let mut out: Vec<u8> = Vec::new();
    let mut i: usize = 0;
    proof {
        assert(all.take(0) =~= Seq::<SubpacketView>::empty());
    }
    while i < v.len()
        invariant
            i <= v@.len(),
            limit <= u32::MAX,
            all == subpacket_views(v@),
            out@ == area(all.take(i as int)),
        decreases v@.len() - i,
    {
        proof {
            assert(all.take(i + 1).drop_last() =~= all.take(i as int));
            assert(all[i as int] == v@[i as int]@);
        }
        match push_subpacket(&mut out, v[i].octet, v[i].body.as_slice()) {
            Ok(()) => (),
            Err(e) => {
                proof {
                    lemma_area_bounds(all, i as int);
                }
                return Err(e);
            },
        }
        i = i + 1;
    }
    assert(all.take(v@.len() as int) =~= all);
    if out.len() > limit {
        return Err(Error::TooLarge);
    }
    Ok(out)
}

/// The parts of a signature packet that are known before it is signed.
pub struct Prepared {
    head: Vec<u8>,
    unhashed: Vec<u8>,
    params: Ghost<SignatureParams>,
}

impl Prepared {
    pub closed spec fn wf(&self) -> bool {
        &&& self.head@ == self.params@.head()
        &&& self.unhashed@ == self.params@.counted(area(self.params@.unhashed()))
    }

    /// What the signature will be of.
    pub closed spec fn params(&self) -> SignatureParams {
        self.params@
    }
}

/// The fingerprints of a vector.
pub open spec fn fingerprint_views(v: Seq<Fingerprint>) -> Seq<FingerprintView> {
    v.map_values(|fp: Fingerprint| fp@)
}

fn fingerprint_body(fp: &Fingerprint) -> (r: Vec<u8>)
    ensures
        r@ == seq![fp@.version] + fp@.octets,
{
    let mut body: Vec<u8> = Vec::new();
    body.push(fp.version());
    extend(&mut body, fp.as_bytes());
    assert(body@ =~= seq![fp@.version] + fp@.octets);
    body
}

fn push_counted(out: &mut Vec<u8>, v6: bool, a: &[u8])
    requires
        a@.len() <= 0xFFFF_FFFF,
        !v6 ==> a@.len() <= 0xFFFF,
    ensures
        final(out)@ == old(out)@ + (if v6 {
            be32(a@.len() as int) + a@
        } else {
            be16(a@.len() as int) + a@
        }),
{
    if v6 {
        push_be32(out, a.len() as u32);
    } else {
        push_be16(out, a.len() as u16);
    }
    extend(out, a);
    assert(out@ =~= old(out)@ + (if v6 {
        be32(a@.len() as int) + a@
    } else {
        be16(a@.len() as int) + a@
    }));
}

impl SignatureBuilder {
    fn names_issuer(&self) -> (r: bool)
        ensures
            r == (has_tag(self@.hashed, ISSUER as int) || has_tag(
                self@.hashed,
                ISSUER_FINGERPRINT as int,
            ) || has_tag(self@.unhashed, ISSUER as int) || has_tag(
                self@.unhashed,
                ISSUER_FINGERPRINT as int,
            )),
    {
        contains_tag(&self.hashed, ISSUER) || contains_tag(&self.hashed, ISSUER_FINGERPRINT)
            || contains_tag(&self.unhashed, ISSUER) || contains_tag(
            &self.unhashed,
            ISSUER_FINGERPRINT,
        )
    }

    #[verifier::rlimit(40)]
    fn hashed_subpackets(&self, key: &Key, time: u32, recipients: &Vec<Fingerprint>) -> (r: Vec<
        Subpacket,
    >)
        ensures
            forall|algo: HashAlgorithm, salt: Seq<u8>|
                subpacket_views(r@) == (#[trigger] params_of(
                    self@,
                    key@,
                    algo,
                    salt,
                    time as int,
                    recipients@,
                )).hashed(),
    {
        let mut timed = copy_without(&self.hashed, CREATION_TIME);
        let mut body: Vec<u8> = Vec::new();
        push_be32(&mut body, time);
        assert(body@ =~= be32(time as int));
        let ghost was = subpacket_views(timed@);
        timed.push(Subpacket { octet: CREATION_TIME + 128, body });
        let ghost with_time = was.push(creation_time(time as int));
        assert(subpacket_views(timed@) =~= with_time);
        let mut v: Vec<Subpacket> = timed;
        if recipients.len() > 0 {
            v = copy_without(&v, INTENDED_RECIPIENT);
            let ghost kept = subpacket_views(v@);
            let ghost all = fingerprint_views(recipients@).map_values(
                |fp: FingerprintView| intended_recipient(fp),
            );
            let mut i: usize = 0;
            assert(kept + all.take(0) =~= kept);
            while i < recipients.len()
                invariant
                    i <= recipients@.len(),
                    all == fingerprint_views(recipients@).map_values(
                        |fp: FingerprintView| intended_recipient(fp),
                    ),
                    subpacket_views(v@) == kept + all.take(i as int),
                decreases recipients@.len() - i,
            {
                let ghost so_far = v@;
                v.push(
                    Subpacket { octet: INTENDED_RECIPIENT, body: fingerprint_body(&recipients[i]) },
                );
                proof {
                    assert(all[i as int] == intended_recipient(recipients@[i as int]@));
                    assert(subpacket_views(v@) =~= subpacket_views(so_far).push(all[i as int]));
                    assert(all.take(i as int).push(all[i as int]) =~= all.take(i + 1));
                    assert(kept + all.take(i + 1) =~= (kept + all.take(i as int)).push(
                        all[i as int],
                    ));
                }
                i = i + 1;
            }
            assert(all.take(recipients@.len() as int) =~= all);
        }
        if !self.names_issuer() {
            let ghost so_far = subpacket_views(v@);
            v.push(
                Subpacket { octet: ISSUER_FINGERPRINT, body: fingerprint_body(key.fingerprint()) },
            );
            assert(subpacket_views(v@) =~= so_far.push(issuer_fingerprint(key@.fingerprint)));
        }
        v
    }

    fn unhashed_subpackets(&self, key: &Key) -> (r: Vec<Subpacket>)
        ensures
            forall|algo: HashAlgorithm, salt: Seq<u8>, time: int, recipients: Seq<Fingerprint>|
                subpacket_views(r@) == (#[trigger] params_of(
                    self@,
                    key@,
                    algo,
                    salt,
                    time,
                    recipients,
                )).unhashed(),
    {
        let mut v = copy_without(&self.unhashed, 255);
        proof {
            lemma_without_nothing(self@.unhashed, 255);
        }
        if !self.names_issuer() && key.version() == 4 {
            let ghost so_far = subpacket_views(v@);
            v.push(Subpacket { octet: ISSUER, body: key.keyid().0 });
            assert(subpacket_views(v@) =~= so_far.push(issuer(key@.fingerprint)));
        }
        v
    }

    /// Settles everything in a signature packet that is known before it is
    /// signed.
    #[verifier::rlimit(40)]
    pub fn prepare(
        &self,
        key: &Key,
        algo: HashAlgorithm,
        salt: &[u8],
        time: i64,
        recipients: &Vec<Fingerprint>,
    ) -> (r: Result<Prepared>)
        ensures
            ({
                let p = params_of(self@, key@, algo, salt@, time as int, recipients@);
                match r {
                    Ok(prepared) => p.time_fits() && p.areas_fit() && prepared.wf()
                        && prepared.params() == p,
                    Err(e) => {
                        ||| !p.time_fits() && e@ == ErrorView::InvalidArgument(
                            "Time exceeds u32 epoch"@,
                        )
                        ||| p.time_fits() && !p.areas_fit() && e@ == ErrorView::TooLarge
                    },
                }
            }),
    {
        if time < 0 || time > 0xFFFF_FFFF {
            return Err(Error::InvalidArgument("Time exceeds u32 epoch".to_string()));
        }
        let ghost p = params_of(self@, key@, algo, salt@, time as int, recipients@);
        let v6: bool = key.version() == 6;
        let limit: usize = if v6 {
            0xFFFF_FFFF
        } else {
            0xFFFF
        };
        let hashed = match serialize_area(
            &self.hashed_subpackets(key, time as u32, recipients),
            limit,
        ) {
            Ok(a) => a,
            Err(e) => return Err(e),
        };
        let unhashed = match serialize_area(&self.unhashed_subpackets(key), limit) {
            Ok(a) => a,
            Err(e) => return Err(e),
        };
        let mut head: Vec<u8> = Vec::new();
        head.push(key.version());
        head.push(self.typ.octet());
        head.push(key.pk_algo().octet());
        head.push(algo.octet());
        push_counted(&mut head, v6, hashed.as_slice());
        assert(head@ =~= p.head());
        let mut tail: Vec<u8> = Vec::new();
        push_counted(&mut tail, v6, unhashed.as_slice());
        assert(tail@ =~= p.counted(area(p.unhashed())));
        Ok(Prepared { head, unhashed: tail, params: Ghost(p) })
    }

    /// Copies the template.
    pub fn duplicate(&self) -> (r: SignatureBuilder)
        ensures
            r@ == self@,
    {
        proof {
            lemma_without_nothing(self@.hashed, 255);
            lemma_without_nothing(self@.unhashed, 255);
        }
        SignatureBuilder {
            typ: self.typ,
            hashed: copy_without(&self.hashed, 255),
            unhashed: copy_without(&self.unhashed, 255),
        }
    }
}

proof fn lemma_without_nothing(subpackets: Seq<SubpacketView>, tag: int)
    requires
        tag >= 128,
    ensures
        without(subpackets, tag) == subpackets,
    decreases subpackets.len(),
{
    if subpackets.len() > 0 {
        lemma_without_nothing(subpackets.drop_last(), tag);
        assert(subpackets.drop_last().push(subpackets.last()) =~= subpackets);
    }
}

/// Everything that determines a signature but the digest and the numbers.
pub open spec fn params_of(
    template: TemplateView,
    key: KeyView,
    algo: HashAlgorithm,
    salt: Seq<u8>,
    time: int,
    recipients: Seq<Fingerprint>,
) -> SignatureParams {
    SignatureParams {
        template,
        key,
        algo,
        salt,
        time,
        recipients: fingerprint_views(recipients),
    }
}

impl Prepared {
    /// Returns what is hashed after the data.
    pub fn trailer(&self) -> (r: Vec<u8>)
        requires
            self.wf(),
        ensures
            r@ == self.params().trailer(),
    {
        let mut out = to_vec(self.head.as_slice());
        out.push(self.head[0]);
        out.push(0xFF);
        // The length is counted modulo two to the power of 32.
        #[verifier::truncate]
        let n: u32 = (self.head.len() as u64 % 0x1_0000_0000) as u32;
        push_be32(&mut out, n);
        proof {
            crate::bytes::lemma_be32_wraps(self.head@.len() as int);
        }
        assert(out@ =~= self.params().trailer());
        out
    }

    /// Makes the signature packet, given the digest and its signature.
    pub fn assemble(self, salt: &[u8], digest: &[u8], sig: &Signature) -> (r: Result<Vec<u8>>)
        requires
            self.wf(),
            salt@ == self.params().salt,
            salt@.len() <= 255,
            digest@.len() >= 2,
        ensures
            match r {
                Ok(p) => self.params().packs(digest@, sig@) && p@ == packet(
                    Tag::Signature,
                    self.params().body(digest@, sig@),
                ),
                Err(e) => !self.params().packs(digest@, sig@) && e@ is TooLarge,
            },
    {
        let v6: bool = self.head[0] == 6;
        let mut body = self.head;
        extend(&mut body, self.unhashed.as_slice());
        body.push(digest[0]);
        body.push(digest[1]);
        assert(digest@.take(2) =~= seq![digest@[0], digest@[1]]);
        if v6 {
            body.push(salt.len() as u8);
            extend(&mut body, salt);
        }
        match sig.serialize(&mut body) {
            Ok(()) => (),
            Err(e) => return Err(e),
        }
        assert(body@ =~= self.params().body(digest@, sig@));
        make_packet(Tag::Signature, body.as_slice())
    }
}

/// The one-pass signature packet of a version 4 key.
pub open spec fn one_pass_sig3(
    typ: SignatureType,
    key: KeyView,
    algo: HashAlgorithm,
    last: bool,
) -> Seq<u8> {
    packet(
        Tag::OnePassSig,
        seq![3u8, typ.spec_octet(), algo.spec_octet(), key.mpis.algo().spec_octet()]
            + key.fingerprint.keyid() + seq![
            if last {
                1u8
            } else {
                0u8
            },
        ],
    )
}

/// The one-pass signature packet of a version 6 key.
pub open spec fn one_pass_sig6(
    typ: SignatureType,
    key: KeyView,
    algo: HashAlgorithm,
    salt: Seq<u8>,
    last: bool,
) -> Seq<u8> {
    packet(
        Tag::OnePassSig,
        seq![6u8, typ.spec_octet(), algo.spec_octet(), key.mpis.algo().spec_octet()] + seq![
            salt.len() as u8,
        ] + salt + key.fingerprint.octets + seq![
            if last {
                1u8
            } else {
                0u8
            },
        ],
    )
}

/// The one-pass signature packet of a key.
pub open spec fn one_pass_sig(
    typ: SignatureType,
    key: KeyView,
    algo: HashAlgorithm,
    salt: Seq<u8>,
    last: bool,
) -> Seq<u8> {
    if key.fingerprint.version == 4 {
        one_pass_sig3(typ, key, algo, last)
    } else {
        one_pass_sig6(typ, key, algo, salt, last)
    }
}

/// Makes the one-pass signature packet of a key.
pub fn make_one_pass_sig(
    typ: SignatureType,
    key: &Key,
    algo: HashAlgorithm,
    salt: &[u8],
    last: bool,
) -> (r: Vec<u8>)
    requires
        key@.fingerprint.version == 4 || key@.fingerprint.version == 6,
        salt@.len() <= 255,
    ensures
        r@ == one_pass_sig(typ, key@, algo, salt@, last),
{
    let mut body: Vec<u8> = Vec::new();
    let v4: bool = key.version() == 4;
    body.push(if v4 { 3 } else { 6 });
    body.push(typ.octet());
    body.push(algo.octet());
    body.push(key.pk_algo().octet());
    let octets = key.fingerprint().as_bytes();
    if v4 {
        extend(&mut body, key.keyid().0.as_slice());
    } else {
        body.push(salt.len() as u8);
        extend(&mut body, salt);
        extend(&mut body, octets);
    }
    body.push(if last { 1 } else { 0 });
    let ghost expected = if v4 {
        seq![3u8, typ.spec_octet(), algo.spec_octet(), key@.mpis.algo().spec_octet()]
            + key@.fingerprint.keyid() + seq![
            if last {
                1u8
            } else {
                0u8
            },
        ]
    } else {
        seq![6u8, typ.spec_octet(), algo.spec_octet(), key@.mpis.algo().spec_octet()] + seq![
            salt@.len() as u8,
        ] + salt@ + key@.fingerprint.octets + seq![
            if last {
                1u8
            } else {
                0u8
            },
        ]
    };
    assert(body@ =~= expected);
    match make_packet(Tag::OnePassSig, body.as_slice()) {
        Ok(p) => p,
        Err(_) => Vec::new(),
    }
}

} // verus!
