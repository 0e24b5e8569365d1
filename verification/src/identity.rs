//! `RemoteIdentity`: the fixed-format public identity token of a peer.
//!
//! An identity is a fixed number of raw bytes; its canonical text form is the
//! lowercase hexadecimal encoding of those bytes, used as the instance label
//! of the peer's multicast-DNS service name.

use vstd::prelude::*;

verus! {

/// Number of raw bytes in an identity.
pub const ID_LEN: usize = 32;

/// Number of bytes in the canonical text form (two hex digits per byte).
pub const ID_TEXT_LEN: usize = 64;

/// Whether `c` is a lowercase hexadecimal digit (ASCII).
pub open spec fn is_hex_digit(c: u8) -> bool {
    (48 <= c && c <= 57) || (97 <= c && c <= 102)
}

/// The lowercase hex digit for a nibble.
pub open spec fn hex_char(n: u8) -> u8
    recommends
        n < 16,
{
    if n < 10 {
        (48 + n) as u8
    } else {
        (87 + n) as u8
    }
}

/// The nibble value of a lowercase hex digit.
pub open spec fn hex_val(c: u8) -> u8
    recommends
        is_hex_digit(c),
{
    if c <= 57 {
        (c - 48) as u8
    } else {
        (c - 87) as u8
    }
}

/// Canonical text form of a byte string: two lowercase hex digits per byte.
pub open spec fn id_text(bs: Seq<u8>) -> Seq<u8> {
    Seq::new(bs.len() * 2, |i: int| if i % 2 == 0 {
        hex_char((bs[i / 2] / 16) as u8)
    } else {
        hex_char((bs[i / 2] % 16) as u8)
    })
}

/// Whether `t` is a well-formed canonical identity text.
pub open spec fn valid_id_text(t: Seq<u8>) -> bool {
    t.len() == ID_TEXT_LEN && forall|i: int| 0 <= i < t.len() ==> is_hex_digit(#[trigger] t[i])
}

/// The bytes denoted by an identity text (meaningful when `valid_id_text`).
pub open spec fn parse_id_text(t: Seq<u8>) -> Seq<u8> {
    Seq::new(t.len() / 2, |i: int| (hex_val(t[2 * i]) * 16 + hex_val(t[2 * i + 1])) as u8)
}

pub proof fn lemma_hex_char_val(n: u8)
    requires
        n < 16,
    ensures
        is_hex_digit(hex_char(n)),
        hex_val(hex_char(n)) == n,
{
}

/// Encoding a byte string yields a well-formed identity text.
pub proof fn lemma_id_text_valid(bs: Seq<u8>)
    requires
        bs.len() == ID_LEN,
    ensures
        valid_id_text(id_text(bs)),
{
    assert forall|i: int| 0 <= i < id_text(bs).len() implies is_hex_digit(#[trigger] id_text(bs)[i]) by {
        let b = bs[i / 2];
        if i % 2 == 0 {
            lemma_hex_char_val((b / 16) as u8);
        } else {
            lemma_hex_char_val((b % 16) as u8);
        }
    }
}

/// Decoding the canonical text of a byte string yields the bytes back.
pub proof fn lemma_parse_of_id_text(bs: Seq<u8>)
    requires
        bs.len() == ID_LEN,
    ensures
        parse_id_text(id_text(bs)) == bs,
{
    let t = id_text(bs);
    assert forall|i: int| 0 <= i < parse_id_text(t).len() implies parse_id_text(t)[i] == bs[i] by {
        let b = bs[i];
        assert(t[2 * i] == hex_char((b / 16) as u8));
        assert(t[2 * i + 1] == hex_char((b % 16) as u8));
        lemma_hex_char_val((b / 16) as u8);
        lemma_hex_char_val((b % 16) as u8);
        assert((b / 16) * 16 + (b % 16) == b) by (nonlinear_arith);
    }
    assert(parse_id_text(t) =~= bs);
}

pub proof fn lemma_hex_val_char(c: u8)
    requires
        is_hex_digit(c),
    ensures
        hex_val(c) < 16,
        hex_char(hex_val(c)) == c,
{
}

/// The text form is canonical: a valid identity text is exactly the
/// encoding of the bytes it denotes, so distinct valid texts denote
/// distinct identities.
pub proof fn lemma_id_text_of_parse(t: Seq<u8>)
    requires
        valid_id_text(t),
    ensures
        id_text(parse_id_text(t)) == t,
{
    let bs = parse_id_text(t);
    assert forall|j: int| 0 <= j < id_text(bs).len() implies id_text(bs)[j] == t[j] by {
        let i = j / 2;
        let v1 = hex_val(t[2 * i]);
        let v2 = hex_val(t[2 * i + 1]);
        lemma_hex_val_char(t[2 * i]);
        lemma_hex_val_char(t[2 * i + 1]);
        assert(bs[i] == (v1 * 16 + v2) as u8);
        assert(v1 < 16 && v2 < 16);
        assert((v1 * 16 + v2) / 16 == v1 && (v1 * 16 + v2) % 16 == v2) by (nonlinear_arith)
            requires
                v1 < 16 && v2 < 16,
        ;
        if j % 2 == 0 {
            assert(j == 2 * i);
        } else {
            assert(j == 2 * i + 1);
        }
    }
    assert(id_text(bs) =~= t);
}

/// A peer's stable public identity: `ID_LEN` raw bytes, keyed and compared
/// by content, with a canonical lowercase-hex text form.
pub struct RemoteIdentity {
    bytes: Vec<u8>,
}

impl View for RemoteIdentity {
    type V = Seq<u8>;

    closed spec fn view(&self) -> Seq<u8> {
        self.bytes@
    }
}

impl DeepView for RemoteIdentity {
    type V = Seq<u8>;

    open spec fn deep_view(&self) -> Seq<u8> {
        self@
    }
}

/// Compare two byte strings for content equality.
pub fn bytes_eq(a: &Vec<u8>, b: &Vec<u8>) -> (r: bool)
    ensures
        r == (a@ == b@),
{
    if a.len() != b.len() {
        assert(a@ != b@);
        return false;
    }
    let mut i: usize = 0;
    while i < a.len()
        invariant
            i <= a.len(),
            a@.len() == b@.len(),
            forall|j: int| 0 <= j < i ==> a@[j] == b@[j],
        decreases a.len() - i,
    {
        if a[i] != b[i] {
            assert(a@[i as int] != b@[i as int]);
            return false;
        }
        i += 1;
    }
    proof {
        assert(a@ =~= b@);
    }
    true
}

/// Copy a byte string.
pub fn bytes_dup(v: &Vec<u8>) -> (r: Vec<u8>)
    ensures
        r@ == v@,
{
    let mut r: Vec<u8> = Vec::new();
    let mut i: usize = 0;
    while i < v.len()
        invariant
            i <= v.len(),
            r@ == v@.subrange(0, i as int),
        decreases v.len() - i,
    {
        r.push(v[i]);
        proof {
            assert(r@ =~= v@.subrange(0, i + 1 as int));
        }
        i += 1;
    }
    proof {
        assert(r@ =~= v@);
    }
    r
}

impl PartialEq for RemoteIdentity {
    fn eq(&self, other: &RemoteIdentity) -> (r: bool) {
        bytes_eq(&self.bytes, &other.bytes)
    }
}

impl vstd::std_specs::cmp::PartialEqSpecImpl for RemoteIdentity {
    open spec fn obeys_eq_spec() -> bool {
        true
    }

    open spec fn eq_spec(&self, other: &RemoteIdentity) -> bool {
        self@ == other@
    }
}

fn hex_char_exec(n: u8) -> (c: u8)
    requires
        n < 16,
    ensures
        c == hex_char(n),
{
    if n < 10 {
        48 + n
    } else {
        87 + n
    }
}

fn is_hex_digit_exec(c: u8) -> (r: bool)
    ensures
        r == is_hex_digit(c),
{
    (48 <= c && c <= 57) || (97 <= c && c <= 102)
}

fn hex_val_exec(c: u8) -> (n: u8)
    requires
        is_hex_digit(c),
    ensures
        n == hex_val(c),
        n < 16,
{
    if c <= 57 {
        c - 48
    } else {
        c - 87
    }
}

impl RemoteIdentity {
    /// The identity is exactly `ID_LEN` bytes.
    pub open spec fn wf(&self) -> bool {
        self@.len() == ID_LEN
    }

    /// Build an identity from raw bytes; rejects any length but `ID_LEN`.
    pub fn from_bytes(bytes: Vec<u8>) -> (r: Option<RemoteIdentity>)
        ensures
            r is Some <==> bytes@.len() == ID_LEN,
            r is Some ==> r.unwrap()@ == bytes@ && r.unwrap().wf(),
    {
        if bytes.len() == ID_LEN {
            Some(RemoteIdentity { bytes })
        } else {
            None
        }
    }

    /// The canonical text form: lowercase hex, two digits per byte.
    pub fn encode(&self) -> (t: Vec<u8>)
        requires
            self.wf(),
        ensures
            t@ == id_text(self@),
            valid_id_text(t@),
    {
        let ghost target = id_text(self@);
        let mut t: Vec<u8> = Vec::new();
        let mut i: usize = 0;
        while i < ID_LEN
            invariant
                self.wf(),
                i <= ID_LEN,
                t@.len() == 2 * i,
                target == id_text(self@),
                forall|j: int| 0 <= j < t@.len() ==> t@[j] == target[j],
            decreases ID_LEN - i,
        {
            let b = self.bytes[i];
            t.push(hex_char_exec(b / 16));
            t.push(hex_char_exec(b % 16));
            proof {
                assert(t@[2 * i as int] == target[2 * i as int]);
                assert(t@[2 * i as int + 1] == target[2 * i as int + 1]);
            }
            i += 1;
        }
        proof {
            assert(t@ =~= target);
            lemma_id_text_valid(self@);
        }
        t
    }

    /// Parse a canonical identity text; `None` exactly on malformed input.
    pub fn parse(t: &Vec<u8>) -> (r: Option<RemoteIdentity>)
        ensures
            r is Some <==> valid_id_text(t@),
            r is Some ==> r.unwrap()@ == parse_id_text(t@) && r.unwrap().wf(),
    {
        if t.len() != ID_TEXT_LEN {
            return None;
        }
        let mut bytes: Vec<u8> = Vec::new();
        let mut i: usize = 0;
        while i < ID_LEN
            invariant
                t@.len() == ID_TEXT_LEN,
                i <= ID_LEN,
                bytes@.len() == i,
                forall|j: int| 0 <= j < 2 * i ==> is_hex_digit(#[trigger] t@[j]),
                forall|j: int| 0 <= j < i ==> bytes@[j] == parse_id_text(t@)[j],
            decreases ID_LEN - i,
        {
            let c1 = t[2 * i];
            let c2 = t[2 * i + 1];
            if !is_hex_digit_exec(c1) || !is_hex_digit_exec(c2) {
                assert(!valid_id_text(t@));
                return None;
            }
            bytes.push(hex_val_exec(c1) * 16 + hex_val_exec(c2));
            i += 1;
        }
        proof {
            assert(valid_id_text(t@));
            assert(bytes@ =~= parse_id_text(t@));
        }
        Some(RemoteIdentity { bytes })
    }

    /// An independent copy with the same content.
    pub fn duplicate(&self) -> (r: RemoteIdentity)
        ensures
            r@ == self@,
    {
        RemoteIdentity { bytes: bytes_dup(&self.bytes) }
    }
}

} // verus!
