//! Laws on what stands where in signature packets and one-pass signature
//! packets.

use vstd::prelude::*;

use crate::bytes::{be16, be32};
use crate::crypto::SignatureView;
use crate::framing::{lemma_unframe_full, packet, unframe, Tag};
use crate::key::{number, FingerprintView, KeyView};
use crate::octets::{
    law_first_octets, law_key_ids, law_numbers_are_read, law_packet_layout,
    law_subpacket_lengths,
};
use crate::signature::{
    area, creation_time, has_tag, intended_recipient, issuer, issuer_fingerprint, one_pass_sig,
    subpacket_length, without, SignatureParams, SubpacketView,
};
use crate::types::{HashAlgorithm, SignatureType};

verus! {

/// The subpackets that a reader finds in an area: before each one stands its
/// length, which counts the octet that tells its tag and its body.
pub open spec fn read_subpackets(s: Seq<u8>) -> Option<Seq<SubpacketView>>
    decreases s.len(),
{
    if s.len() == 0 {
        Some(Seq::empty())
    } else if s[0] < 192 {
        read_subpacket(s, 1, s[0] as int)
    } else if s[0] < 255 {
        if s.len() < 2 {
            None
        } else {
            read_subpacket(s, 2, (s[0] - 192) * 256 + s[1] + 192)
        }
    } else {
        if s.len() < 5 {
            None
        } else {
            read_subpacket(s, 5, s[1] * 0x100_0000 + s[2] * 0x1_0000 + s[3] * 0x100 + s[4])
        }
    }
}

/// The subpackets in an area that starts with a length of `k` octets, and then
/// with a subpacket of `n` octets.
pub open spec fn read_subpacket(s: Seq<u8>, k: int, n: int) -> Option<Seq<SubpacketView>>
    decreases s.len(), 0nat,
    when k >= 1
{
    if n < 1 || s.len() < k + n {
        None
    } else {
        match read_subpackets(s.skip(k + n)) {
            Some(more) => Some(
                seq![SubpacketView { octet: s[k], body: s.subrange(k + 1, k + n) }] + more,
            ),
            None => None,
        }
    }
}

/// An area starts with its first subpacket.
#[verifier::spinoff_prover]
#[verifier::rlimit(40)]
proof fn lemma_area_front(subpackets: Seq<SubpacketView>)
    requires
        subpackets.len() > 0,
    ensures
        area(subpackets) == subpackets[0].octets() + area(subpackets.skip(1)),
    decreases subpackets.len(),
{
    if subpackets.len() == 1 {
        assert(subpackets.drop_last() =~= Seq::<SubpacketView>::empty());
        assert(subpackets.skip(1) =~= Seq::<SubpacketView>::empty());
        assert(area(subpackets.drop_last()) =~= Seq::<u8>::empty());
        assert(area(subpackets) =~= subpackets[0].octets());
        assert(subpackets[0].octets() + area(subpackets.skip(1)) =~= subpackets[0].octets());
    } else {
        lemma_area_front(subpackets.drop_last());
        assert(subpackets.drop_last().skip(1) =~= subpackets.skip(1).drop_last());
        assert(subpackets.skip(1).last() == subpackets.last());
        assert((subpackets[0].octets() + area(subpackets.skip(1).drop_last()))
            + subpackets.last().octets() =~= subpackets[0].octets() + area(subpackets.skip(1)));
    }
}

/// A reader finds in an area the subpackets that were put there, in their order.
#[verifier::rlimit(60)]
#[verifier::spinoff_prover]
pub proof fn law_areas_are_read(subpackets: Seq<SubpacketView>)
    requires
        forall|i: int|
            0 <= i < subpackets.len() ==> (#[trigger] subpackets[i]).body.len() < 0xFFFF_FFFF,
    ensures
        read_subpackets(area(subpackets)) == Some(subpackets),
    decreases subpackets.len(),
{
    if subpackets.len() > 0 {
        let first = subpackets[0];
        let rest = subpackets.skip(1);
        assert forall|i: int| 0 <= i < rest.len() implies (#[trigger] rest[i]).body.len()
            < 0xFFFF_FFFF by {
            assert(rest[i] == subpackets[i + 1]);
        }
        law_areas_are_read(rest);
        lemma_area_front(subpackets);
        let s = area(subpackets);
        let n = first.body.len() + 1;
        let length = subpacket_length(n as int);
        law_subpacket_lengths(n as int);
        let k = length.len() as int;
        assert(s =~= length + seq![first.octet] + first.body + area(rest));
        assert(s[0] == length[0]);
        if k >= 2 {
            assert(s[1] == length[1]);
        }
        if k == 5 {
            assert(s[2] == length[2]);
            assert(s[3] == length[3]);
            assert(s[4] == length[4]);
        }
        assert(s[k] == first.octet);
        assert(s.subrange(k + 1, k + n) =~= first.body);
        assert(s.skip(k + n) =~= area(rest));
        assert(read_subpackets(s) == read_subpacket(s, k, n as int));
        let read = SubpacketView { octet: s[k], body: s.subrange(k + 1, k + n) };
        assert(read =~= first);
        assert(seq![read] + rest =~= subpackets);
    }
}

/// The subpackets with a tag; 128 is added to it where a subpacket is critical.
pub open spec fn tagged(subpackets: Seq<SubpacketView>, tag: int) -> Seq<SubpacketView> {
    subpackets.filter(|s: SubpacketView| s.octet as int % 128 == tag)
}

proof fn lemma_tagged_push(subpackets: Seq<SubpacketView>, s: SubpacketView, tag: int)
    ensures
        tagged(subpackets.push(s), tag) == if s.octet as int % 128 == tag {
            tagged(subpackets, tag).push(s)
        } else {
            tagged(subpackets, tag)
        },
{
    reveal(Seq::filter);
    assert(subpackets.push(s).drop_last() =~= subpackets);
}

proof fn lemma_tagged_nothing(tag: int)
    ensures
        tagged(Seq::empty(), tag) == Seq::<SubpacketView>::empty(),
{
    reveal(Seq::filter);
}

proof fn lemma_tagged_without(subpackets: Seq<SubpacketView>, out: int, tag: int)
    ensures
        tagged(without(subpackets, out), tag) == if out == tag {
            Seq::empty()
        } else {
            tagged(subpackets, tag)
        },
    decreases subpackets.len(),
{
    lemma_tagged_nothing(tag);
    if subpackets.len() > 0 {
        let init = subpackets.drop_last();
        let last = subpackets.last();
        lemma_tagged_without(init, out, tag);
        lemma_tagged_push(init, last, tag);
        lemma_tagged_push(without(init, out), last, tag);
        assert(init.push(last) =~= subpackets);
    } else {
        assert(subpackets =~= Seq::<SubpacketView>::empty());
    }
}

/// If all subpackets have a tag, all of them have it, and none another.
#[verifier::spinoff_prover]
#[verifier::rlimit(40)]
proof fn lemma_tagged_all(subpackets: Seq<SubpacketView>, all: int, tag: int)
    requires
        forall|i: int|
            0 <= i < subpackets.len() ==> (#[trigger] subpackets[i]).octet as int % 128 == all,
    ensures
        tagged(subpackets, tag) == if all == tag {
            subpackets
        } else {
            Seq::empty()
        },
    decreases subpackets.len(),
{
    lemma_tagged_nothing(tag);
    if subpackets.len() > 0 {
        let init = subpackets.drop_last();
        let last = subpackets[subpackets.len() - 1];
        assert forall|i: int| 0 <= i < init.len() implies (#[trigger] init[i]).octet as int % 128
            == all by {
            assert(init[i] == subpackets[i]);
        }
        lemma_tagged_all(init, all, tag);
        lemma_tagged_push(init, last, tag);
        assert(init.push(last) =~= subpackets);
    } else {
        assert(subpackets =~= Seq::<SubpacketView>::empty());
    }
}

#[verifier::spinoff_prover]
#[verifier::rlimit(40)]
proof fn lemma_tagged_absent(subpackets: Seq<SubpacketView>, tag: int)
    requires
        !has_tag(subpackets, tag),
    ensures
        tagged(subpackets, tag) == Seq::<SubpacketView>::empty(),
    decreases subpackets.len(),
{
    lemma_tagged_nothing(tag);
    if subpackets.len() > 0 {
        let init = subpackets.drop_last();
        let last = subpackets[subpackets.len() - 1];
        assert(last.tag() != tag);
        assert forall|i: int| 0 <= i < init.len() implies #[trigger] init[i].tag() != tag by {
            assert(subpackets[i].tag() != tag);
        }
        lemma_tagged_absent(init, tag);
        lemma_tagged_push(init, last, tag);
        assert(init.push(last) =~= subpackets);
    } else {
        assert(subpackets =~= Seq::<SubpacketView>::empty());
    }
}

/// Whether one of the subpackets says who made the signature: by a key ID, or by
/// a fingerprint.
pub open spec fn says_who(subpackets: Seq<SubpacketView>) -> bool {
    exists|i: int|
        0 <= i < subpackets.len() && ((#[trigger] subpackets[i]).octet as int % 128 == 16
            || subpackets[i].octet as int % 128 == 33)
}

#[verifier::spinoff_prover]
#[verifier::rlimit(40)]
proof fn lemma_says_who(subpackets: Seq<SubpacketView>)
    ensures
        says_who(subpackets) <==> has_tag(subpackets, 16) || has_tag(subpackets, 33),
{
    if says_who(subpackets) {
        let i = choose|i: int|
            0 <= i < subpackets.len() && ((#[trigger] subpackets[i]).octet as int % 128 == 16
                || subpackets[i].octet as int % 128 == 33);
        assert(subpackets[i].tag() == 16 || subpackets[i].tag() == 33);
    }
    if has_tag(subpackets, 16) {
        let i = choose|i: int| 0 <= i < subpackets.len() && #[trigger] subpackets[i].tag() == 16;
        assert(subpackets[i].octet as int % 128 == 16);
    }
    if has_tag(subpackets, 33) {
        let i = choose|i: int| 0 <= i < subpackets.len() && #[trigger] subpackets[i].tag() == 33;
        assert(subpackets[i].octet as int % 128 == 33);
    }
}

/// What a signature covers besides the data, subpacket by subpacket: exactly one
/// creation time, which is critical; all intended recipients that were added, in
/// their order and nobody else, or those of the template if none was added; the
/// fingerprint of the signer, unless the template says who signs; and everything
/// else that the template has, in its order.
#[verifier::rlimit(60)]
#[verifier::spinoff_prover]
pub proof fn law_covered_subpackets(p: SignatureParams, tag: int)
    requires
        p.time_fits(),
    ensures
        tagged(p.hashed(), 2).len() == 1,
        tagged(p.hashed(), 2)[0].octet == 0x82,
        tagged(p.hashed(), 2)[0].body.len() == 4,
        number(tagged(p.hashed(), 2)[0].body) == p.time,
        p.recipients.len() > 0 ==> {
            &&& tagged(p.hashed(), 35).len() == p.recipients.len()
            &&& forall|k: int|
                0 <= k < p.recipients.len() ==> {
                    let s = #[trigger] tagged(p.hashed(), 35)[k];
                    &&& s.octet == 35
                    &&& s.body.len() == 1 + p.recipients[k].octets.len()
                    &&& s.body[0] == p.recipients[k].version
                    &&& s.body.skip(1) == p.recipients[k].octets
                }
        },
        p.recipients.len() == 0 ==> tagged(p.hashed(), 35) == tagged(p.template.hashed, 35),
        says_who(p.template.hashed) || says_who(p.template.unhashed) ==> tagged(p.hashed(), 33)
            == tagged(p.template.hashed, 33),
        !says_who(p.template.hashed) && !says_who(p.template.unhashed) ==> {
            let s = tagged(p.hashed(), 33)[0];
            &&& tagged(p.hashed(), 33).len() == 1
            &&& s.octet == 33
            &&& s.body.len() == 1 + p.key.fingerprint.octets.len()
            &&& s.body[0] == p.key.fingerprint.version
            &&& s.body.skip(1) == p.key.fingerprint.octets
        },
        tag != 2 && tag != 33 && tag != 35 ==> tagged(p.hashed(), tag) == tagged(
            p.template.hashed,
            tag,
        ),
{
    lemma_covered_time(p);
    lemma_covered_recipients(p);
    lemma_covered_issuer(p);
    lemma_covered_rest(p, tag);
}

#[verifier::spinoff_prover]
proof fn lemma_covered_time(p: SignatureParams)
    requires
        p.time_fits(),
    ensures
        tagged(p.hashed(), 2).len() == 1,
        tagged(p.hashed(), 2)[0].octet == 0x82,
        tagged(p.hashed(), 2)[0].body.len() == 4,
        number(tagged(p.hashed(), 2)[0].body) == p.time,
{
    lemma_hashed_tagged(p, 2);
    law_numbers_are_read(p.time);
    assert(tagged(p.hashed(), 2) =~= seq![creation_time(p.time)]);
}

#[verifier::spinoff_prover]
proof fn lemma_covered_recipients(p: SignatureParams)
    ensures
        p.recipients.len() > 0 ==> {
            &&& tagged(p.hashed(), 35).len() == p.recipients.len()
            &&& forall|k: int|
                0 <= k < p.recipients.len() ==> {
                    let s = #[trigger] tagged(p.hashed(), 35)[k];
                    &&& s.octet == 35
                    &&& s.body.len() == 1 + p.recipients[k].octets.len()
                    &&& s.body[0] == p.recipients[k].version
                    &&& s.body.skip(1) == p.recipients[k].octets
                }
        },
        p.recipients.len() == 0 ==> tagged(p.hashed(), 35) == tagged(p.template.hashed, 35),
{
    lemma_hashed_tagged(p, 35);
    let who = p.recipients.map_values(|fp| intended_recipient(fp));
    lemma_recipient_subpackets(p.recipients, who);
    let none = Seq::<SubpacketView>::empty();
    let old = tagged(p.template.hashed, 35);
    if p.recipients.len() > 0 {
        assert(none + who =~= who);
    } else {
        assert(who =~= none);
        assert(old + none =~= old);
    }
}

proof fn lemma_recipient_subpackets(recipients: Seq<FingerprintView>, found: Seq<SubpacketView>)
    requires
        found == recipients.map_values(|fp| intended_recipient(fp)),
    ensures
        found.len() == recipients.len(),
        forall|k: int|
            0 <= k < recipients.len() ==> {
                let s = #[trigger] found[k];
                &&& s.octet == 35
                &&& s.body.len() == 1 + recipients[k].octets.len()
                &&& s.body[0] == recipients[k].version
                &&& s.body.skip(1) == recipients[k].octets
            },
{
    assert forall|k: int| 0 <= k < recipients.len() implies {
        let s = #[trigger] found[k];
        &&& s.octet == 35
        &&& s.body.len() == 1 + recipients[k].octets.len()
        &&& s.body[0] == recipients[k].version
        &&& s.body.skip(1) == recipients[k].octets
    } by {
        let s = intended_recipient(recipients[k]);
        assert(found[k] == s);
        assert(s.body.skip(1) =~= recipients[k].octets);
    }
}

#[verifier::spinoff_prover]
#[verifier::rlimit(40)]
proof fn lemma_covered_issuer(p: SignatureParams)
    ensures
        says_who(p.template.hashed) || says_who(p.template.unhashed) ==> tagged(p.hashed(), 33)
            == tagged(p.template.hashed, 33),
        !says_who(p.template.hashed) && !says_who(p.template.unhashed) ==> {
            let s = tagged(p.hashed(), 33)[0];
            &&& tagged(p.hashed(), 33).len() == 1
            &&& s.octet == 33
            &&& s.body.len() == 1 + p.key.fingerprint.octets.len()
            &&& s.body[0] == p.key.fingerprint.version
            &&& s.body.skip(1) == p.key.fingerprint.octets
        },
{
    lemma_hashed_tagged(p, 33);
    lemma_says_who(p.template.hashed);
    lemma_says_who(p.template.unhashed);
    let found = tagged(p.hashed(), 33);
    if p.names_issuer() {
        assert(found =~= tagged(p.template.hashed, 33));
    } else {
        lemma_tagged_absent(p.template.hashed, 33);
        let s = issuer_fingerprint(p.key.fingerprint);
        assert(found =~= seq![s]);
        assert(s.body.skip(1) =~= p.key.fingerprint.octets);
    }
}

#[verifier::spinoff_prover]
proof fn lemma_covered_rest(p: SignatureParams, tag: int)
    ensures
        tag != 2 && tag != 33 && tag != 35 ==> tagged(p.hashed(), tag) == tagged(
            p.template.hashed,
            tag,
        ),
{
    lemma_hashed_tagged(p, tag);
    if tag != 2 && tag != 33 && tag != 35 {
        assert(tagged(p.hashed(), tag) =~= tagged(p.template.hashed, tag));
    }
}

/// The subpackets with a tag that a signature covers.
#[verifier::spinoff_prover]
#[verifier::rlimit(40)]
proof fn lemma_hashed_tagged(p: SignatureParams, tag: int)
    ensures
        tagged(p.hashed(), tag) == (if tag == 2 {
            Seq::empty()
        } else if tag == 35 && p.recipients.len() > 0 {
            Seq::empty()
        } else {
            tagged(p.template.hashed, tag)
        }) + (if tag == 2 {
            seq![creation_time(p.time)]
        } else if tag == 35 {
            p.recipients.map_values(|fp| intended_recipient(fp))
        } else if tag == 33 && !p.names_issuer() {
            seq![issuer_fingerprint(p.key.fingerprint)]
        } else {
            Seq::empty()
        }),
{
    let bare = without(p.template.hashed, 2);
    let time = creation_time(p.time);
    let timed = bare.push(time);
    lemma_tagged_without(p.template.hashed, 2, tag);
    lemma_tagged_push(bare, time, tag);
    let who = p.recipients.map_values(|fp| intended_recipient(fp));
    let addressed = if p.recipients.len() == 0 {
        timed
    } else {
        without(timed, 35) + who
    };
    if p.recipients.len() > 0 {
        lemma_tagged_without(timed, 35, tag);
        lemma_tagged_all(who, 35, tag);
        Seq::filter_distributes_over_add(
            without(timed, 35),
            who,
            |s: SubpacketView| s.octet as int % 128 == tag,
        );
    } else {
        assert(who =~= Seq::<SubpacketView>::empty());
    }
    lemma_tagged_push(addressed, issuer_fingerprint(p.key.fingerprint), tag);
    let expected = (if tag == 2 {
        Seq::empty()
    } else if tag == 35 && p.recipients.len() > 0 {
        Seq::empty()
    } else {
        tagged(p.template.hashed, tag)
    }) + (if tag == 2 {
        seq![time]
    } else if tag == 35 {
        who
    } else if tag == 33 && !p.names_issuer() {
        seq![issuer_fingerprint(p.key.fingerprint)]
    } else {
        Seq::empty()
    });
    assert(p.hashed() == if p.names_issuer() {
        addressed
    } else {
        addressed.push(issuer_fingerprint(p.key.fingerprint))
    });
    assert(tagged(p.hashed(), tag) =~= expected);
}

/// What a signature packet holds that the signature does not cover: what the
/// template has, and the key ID of a version 4 key, unless the template says who
/// signs.
pub proof fn law_other_subpackets(p: SignatureParams, tag: int)
    ensures
        says_who(p.template.hashed) || says_who(p.template.unhashed) || p.key.fingerprint.version
            != 4 ==> p.unhashed() == p.template.unhashed,
        !says_who(p.template.hashed) && !says_who(p.template.unhashed) && p.key.fingerprint.version
            == 4 ==> {
            let s = p.unhashed().last();
            &&& p.unhashed().len() == p.template.unhashed.len() + 1
            &&& p.unhashed().drop_last() == p.template.unhashed
            &&& s.octet == 16
            &&& p.key.fingerprint.octets.len() == 20 ==> s.body
                == p.key.fingerprint.octets.subrange(12, 20)
        },
{
    lemma_says_who(p.template.hashed);
    lemma_says_who(p.template.unhashed);
    if !p.names_issuer() && p.key.fingerprint.version == 4 {
        let s = issuer(p.key.fingerprint);
        assert(p.unhashed() == p.template.unhashed.push(s));
        assert(p.unhashed().drop_last() =~= p.template.unhashed);
        if p.key.fingerprint.octets.len() == 20 {
            assert(s.body =~= p.key.fingerprint.octets.subrange(12, 20));
        }
    }
}

/// What stands where in a signature packet: the version, the type, the algorithms,
/// the two areas with their lengths before them, which take two octets with
/// version 4 keys and four octets with version 6 keys, the first two octets of the
/// digest, with version 6 keys the salt with its length, and the numbers.
#[verifier::rlimit(60)]
#[verifier::spinoff_prover]
pub proof fn law_signature_layout(p: SignatureParams, digest: Seq<u8>, sig: SignatureView)
    requires
        p.key.fingerprint.version == 4 || p.key.fingerprint.version == 6,
        p.areas_fit(),
        digest.len() >= 2,
        p.salt.len() <= 255,
    ensures
        ({
            let b = p.body(digest, sig);
            let v6 = p.key.fingerprint.version == 6;
            let w = if v6 {
                4int
            } else {
                2
            };
            let h = area(p.hashed());
            let u = area(p.unhashed());
            let x = 4 + w + h.len();
            let y = x + w + u.len();
            &&& b[0] == p.key.fingerprint.version
            &&& b[1] == p.template.typ.spec_octet()
            &&& b[2] == p.key.mpis.algo().spec_octet()
            &&& b[3] == p.algo.spec_octet()
            &&& b.len() == y + 2 + (if v6 {
                1 + p.salt.len()
            } else {
                0
            }) + sig.octets().len()
            &&& number(b.subrange(4, 4 + w)) == h.len()
            &&& b.subrange(4 + w, x) == h
            &&& number(b.subrange(x, x + w)) == u.len()
            &&& b.subrange(x + w, y) == u
            &&& b[y] == digest[0]
            &&& b[y + 1] == digest[1]
            &&& v6 ==> b[y + 2] == p.salt.len() && b.subrange(y + 3, y + 3 + p.salt.len())
                == p.salt && b.skip(y + 3 + p.salt.len()) == sig.octets()
            &&& !v6 ==> b.skip(y + 2) == sig.octets()
        }),
{
    let b = p.body(digest, sig);
    let v6 = p.key.fingerprint.version == 6;
    let w = if v6 {
        4int
    } else {
        2
    };
    let h = area(p.hashed());
    let u = area(p.unhashed());
    let x = 4 + w + h.len();
    let y = x + w + u.len();
    law_numbers_are_read(h.len() as int);
    law_numbers_are_read(u.len() as int);
    let lh = if v6 {
        be32(h.len() as int)
    } else {
        be16(h.len() as int)
    };
    let lu = if v6 {
        be32(u.len() as int)
    } else {
        be16(u.len() as int)
    };
    let first = seq![
        p.key.fingerprint.version,
        p.template.typ.spec_octet(),
        p.key.mpis.algo().spec_octet(),
        p.algo.spec_octet(),
    ];
    let two = digest.take(2);
    let salted = if v6 {
        seq![p.salt.len() as u8] + p.salt
    } else {
        Seq::empty()
    };
    assert(p.head() =~= first + lh + h);
    assert(b =~= first + lh + h + lu + u + two + salted + sig.octets());
    assert(b.subrange(4, 4 + w) =~= lh);
    assert(b.subrange(4 + w, x) =~= h);
    assert(b.subrange(x, x + w) =~= lu);
    assert(b.subrange(x + w, y) =~= u);
    if v6 {
        assert(b.subrange(y + 3, y + 3 + p.salt.len()) =~= p.salt);
        assert(b.skip(y + 3 + p.salt.len()) =~= sig.octets());
    } else {
        assert(b.skip(y + 2) =~= sig.octets());
    }
}

/// What is hashed after the data: the start of the signature packet, up to the end
/// of the area that is covered, the version once more, 255, and how much that
/// start is.
#[verifier::rlimit(60)]
pub proof fn law_what_is_hashed_last(p: SignatureParams, digest: Seq<u8>, sig: SignatureView)
    requires
        p.key.fingerprint.version == 4 || p.key.fingerprint.version == 6,
        area(p.hashed()).len() < 0xFFFF_0000,
    ensures
        ({
            let t = p.trailer();
            let n = area(p.hashed()).len() + if p.key.fingerprint.version == 6 {
                8int
            } else {
                6
            };
            &&& t.len() == n + 6
            &&& t.take(n) == p.body(digest, sig).take(n)
            &&& t[n] == p.key.fingerprint.version
            &&& t[n + 1] == 0xFF
            &&& number(t.skip(n + 2)) == n
        }),
{
    let t = p.trailer();
    let n = p.head().len() as int;
    law_numbers_are_read(n);
    law_numbers_are_read(area(p.hashed()).len() as int);
    assert(be32(area(p.hashed()).len() as int).len() == 4);
    assert(be16(area(p.hashed()).len() as int).len() == 2);
    assert(t.take(n) =~= p.head());
    assert(p.body(digest, sig).take(n) =~= p.head());
    assert(t.skip(n + 2) =~= be32(n));
}

/// What stands where in a one-pass signature packet: for a version 4 key the
/// version 3, the type, the algorithms, the key ID, and whether it is the last
/// one; for a version 6 key the version 6, the type, the algorithms, the salt with
/// its length, the fingerprint, and whether it is the last one.
#[verifier::rlimit(60)]
#[verifier::spinoff_prover]
pub proof fn law_one_pass_signature_layout(
    typ: SignatureType,
    key: KeyView,
    algo: HashAlgorithm,
    salt: Seq<u8>,
    last: bool,
)
    requires
        key.fingerprint.version == 4 && key.fingerprint.octets.len() == 20
            || key.fingerprint.version == 6 && key.fingerprint.octets.len() == 32,
        salt.len() <= 255,
    ensures
        ({
            let p = one_pass_sig(typ, key, algo, salt, last);
            let v6 = key.fingerprint.version == 6;
            &&& p[0] == 0xC4
            &&& unframe(p.skip(1)) matches Some(b) && {
                &&& b[0] == if v6 {
                    6u8
                } else {
                    3u8
                }
                &&& b[1] == typ.spec_octet()
                &&& b[2] == algo.spec_octet()
                &&& b[3] == key.mpis.algo().spec_octet()
                &&& b.last() == if last {
                    1u8
                } else {
                    0u8
                }
                &&& !v6 ==> b.len() == 13 && b.subrange(4, 12) == key.fingerprint.octets.subrange(
                    12,
                    20,
                )
                &&& v6 ==> {
                    &&& b.len() == 5 + salt.len() + 32 + 1
                    &&& b[4] == salt.len()
                    &&& b.subrange(5, 5int + salt.len()) == salt
                    &&& b.subrange(5int + salt.len(), 37int + salt.len()) == key.fingerprint.octets
                }
            }
        }),
{
    let v6 = key.fingerprint.version == 6;
    let flag = if last {
        1u8
    } else {
        0u8
    };
    law_key_ids(key.fingerprint);
    law_first_octets(Tag::OnePassSig);
    let body = if v6 {
        seq![6u8, typ.spec_octet(), algo.spec_octet(), key.mpis.algo().spec_octet()] + seq![
            salt.len() as u8,
        ] + salt + key.fingerprint.octets + seq![flag]
    } else {
        seq![3u8, typ.spec_octet(), algo.spec_octet(), key.mpis.algo().spec_octet()]
            + key.fingerprint.keyid() + seq![flag]
    };
    let p = one_pass_sig(typ, key, algo, salt, last);
    assert(p == packet(Tag::OnePassSig, body));
    law_packet_layout(Tag::OnePassSig, body);
    lemma_unframe_full(body);
    assert(p.skip(1) =~= crate::framing::full_length(body.len() as int) + body);
    if v6 {
        assert(body.subrange(5, 5int + salt.len()) =~= salt);
        assert(body.subrange(5int + salt.len(), 37int + salt.len()) =~= key.fingerprint.octets);
    } else {
        assert(body.subrange(4, 12) =~= key.fingerprint.octets.subrange(12, 20));
    }
}

} // verus!
