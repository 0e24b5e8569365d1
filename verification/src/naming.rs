//! The wire-level naming scheme of the mDNS transport.
//!
//! The service domain is `_{app_name}._udp.local.`; the fully-qualified
//! service instance name is `{identity-text}.{domain}`. Names are byte
//! strings as they appear in DNS records. A fully-qualified name decodes,
//! against the known domain, to exactly one identity or is rejected.

use vstd::prelude::*;

use crate::identity::{
    id_text, parse_id_text, valid_id_text, RemoteIdentity, ID_LEN, ID_TEXT_LEN,
};

verus! {

/// The byte string `._udp.local.`.
pub open spec fn udp_local_suffix() -> Seq<u8> {
    seq![46u8, 95u8, 117u8, 100u8, 112u8, 46u8, 108u8, 111u8, 99u8, 97u8, 108u8, 46u8]
}

/// The service domain for an application name: `_{app}._udp.local.`.
pub open spec fn domain_of(app: Seq<u8>) -> Seq<u8> {
    seq![95u8] + app + udp_local_suffix()
}

/// The fully-qualified service name of an identity under a domain.
pub open spec fn fullname_of(id: Seq<u8>, domain: Seq<u8>) -> Seq<u8> {
    id_text(id) + seq![46u8] + domain
}

/// Decode a fully-qualified name against a known domain: the name must be
/// `{identity-text}.{domain}` with a well-formed identity text; anything
/// else is malformed and decodes to `None`.
pub open spec fn name_to_identity(full: Seq<u8>, domain: Seq<u8>) -> Option<Seq<u8>> {
    if full.len() == ID_TEXT_LEN + 1 + domain.len() && full[ID_TEXT_LEN as int] == 46u8
        && full.subrange(ID_TEXT_LEN + 1, full.len() as int) == domain
        && valid_id_text(full.subrange(0, ID_TEXT_LEN as int)) {
        Some(parse_id_text(full.subrange(0, ID_TEXT_LEN as int)))
    } else {
        None
    }
}

/// Round trip: the fully-qualified name constructed from a valid identity
/// decodes, against the same domain, back to exactly that identity.
pub proof fn lemma_fullname_round_trip(id: Seq<u8>, domain: Seq<u8>)
    requires
        id.len() == ID_LEN,
    ensures
        name_to_identity(fullname_of(id, domain), domain) == Some(id),
{
    let full = fullname_of(id, domain);
    crate::identity::lemma_id_text_valid(id);
    assert(full.subrange(0, ID_TEXT_LEN as int) =~= id_text(id));
    assert(full.subrange(ID_TEXT_LEN + 1, full.len() as int) =~= domain);
    assert(full[ID_TEXT_LEN as int] == 46u8);
    crate::identity::lemma_parse_of_id_text(id);
}

/// The identity text never contains the domain separator, so the label
/// structure of a fully-qualified name is unambiguous.
pub proof fn lemma_id_text_has_no_separator(id: Seq<u8>)
    requires
        id.len() == ID_LEN,
    ensures
        forall|i: int| 0 <= i < id_text(id).len() ==> id_text(id)[i] != 46u8,
{
    crate::identity::lemma_id_text_valid(id);
}

/// Append `src` to `dst`.
fn bytes_append(dst: &mut Vec<u8>, src: &Vec<u8>)
    ensures
        final(dst)@ == old(dst)@ + src@,
{
    let mut i: usize = 0;
    while i < src.len()
        invariant
            i <= src.len(),
            dst@ == old(dst)@ + src@.subrange(0, i as int),
        decreases src.len() - i,
    {
        dst.push(src[i]);
        proof {
            assert(dst@ =~= old(dst)@ + src@.subrange(0, i + 1 as int));
        }
        i += 1;
    }
    proof {
        assert(dst@ =~= old(dst)@ + src@);
    }
}

/// Build the service domain `_{app}._udp.local.` for an application name.
pub fn service_domain(app: &Vec<u8>) -> (d: Vec<u8>)
    ensures
        d@ == domain_of(app@),
{
    let mut d: Vec<u8> = Vec::new();
    d.push(95);
    bytes_append(&mut d, app);
    d.push(46);
    d.push(95);
    d.push(117);
    d.push(100);
    d.push(112);
    d.push(46);
    d.push(108);
    d.push(111);
    d.push(99);
    d.push(97);
    d.push(108);
    d.push(46);
    proof {
        assert(d@ =~= domain_of(app@));
    }
    d
}

/// Build the fully-qualified service name of an identity under a domain.
pub fn service_fullname(id: &RemoteIdentity, domain: &Vec<u8>) -> (f: Vec<u8>)
    requires
        id.wf(),
    ensures
        f@ == fullname_of(id@, domain@),
{
    let mut f = id.encode();
    f.push(46);
    bytes_append(&mut f, domain);
    proof {
        assert(f@ =~= fullname_of(id@, domain@));
    }
    f
}

/// Decode a fully-qualified service name against the known domain, rejecting
/// the local identity so that an instance never discovers itself. Returns
/// `None` on every malformed name and on the local identity; a `Some` result
/// is exactly the identity the name denotes.
pub fn fullname_to_identity(fullname: &Vec<u8>, domain: &Vec<u8>, local: &RemoteIdentity) -> (r:
    Option<RemoteIdentity>)
    ensures
        r is Some <==> (name_to_identity(fullname@, domain@) is Some && name_to_identity(
            fullname@,
            domain@,
        ).unwrap() != local@),
        r is Some ==> r.unwrap()@ == name_to_identity(fullname@, domain@).unwrap()
            && r.unwrap().wf(),
{
    if fullname.len() < ID_TEXT_LEN + 1 || fullname.len() - (ID_TEXT_LEN + 1) != domain.len() {
        return None;
    }
    if fullname[ID_TEXT_LEN] != 46 {
        return None;
    }
    let mut k: usize = 0;
    while k < domain.len()
        invariant
            fullname@.len() == ID_TEXT_LEN + 1 + domain@.len(),
            fullname@.len() <= usize::MAX,
            k <= domain.len(),
            forall|j: int| 0 <= j < k ==> fullname@[ID_TEXT_LEN + 1 + j] == domain@[j],
        decreases domain.len() - k,
    {
        if fullname[ID_TEXT_LEN + 1 + k] != domain[k] {
            proof {
                let suffix = fullname@.subrange(ID_TEXT_LEN + 1, fullname@.len() as int);
                assert(suffix[k as int] != domain@[k as int]);
            }
            return None;
        }
        k += 1;
    }
    proof {
        assert(fullname@.subrange(ID_TEXT_LEN + 1, fullname@.len() as int) =~= domain@);
    }
    let mut prefix: Vec<u8> = Vec::new();
    let mut j: usize = 0;
    while j < ID_TEXT_LEN
        invariant
            fullname@.len() == ID_TEXT_LEN + 1 + domain@.len(),
            j <= ID_TEXT_LEN,
            prefix@ == fullname@.subrange(0, j as int),
        decreases ID_TEXT_LEN - j,
    {
        prefix.push(fullname[j]);
        proof {
            assert(prefix@ =~= fullname@.subrange(0, j + 1 as int));
        }
        j += 1;
    }
    proof {
        assert(prefix@ =~= fullname@.subrange(0, ID_TEXT_LEN as int));
    }
    let id = match RemoteIdentity::parse(&prefix) {
        Some(id) => id,
        None => {
            return None;
        },
    };
    if id == *local {
        return None;
    }
    Some(id)
}

} // verus!
