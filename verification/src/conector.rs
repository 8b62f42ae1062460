//! Connector fingerprints: the compatibility keys carried on each tile side.

use vstd::prelude::*;

verus! {

/// The SHA-256 digest of a byte sequence: thirty-two bytes that depend on
/// the input bytes alone.
pub uninterp spec fn sha256_of(bytes: Seq<u8>) -> Seq<u8>;

/// Relies on sha2::Sha256 through the Digest trait: `digest` returns the
/// 32-byte SHA-256 hash of the input, a deterministic function of the
/// input bytes alone.
#[verifier::external_body]
fn sha256(id: &[u8]) -> (r: [u8; 32])
    ensures
        r@ == sha256_of(id@),
{
    let d = <sha2::Sha256 as sha2::Digest>::digest(id);
    d.into()
}

/// A connector is a short fingerprint identifying one side of a tile.
/// Two sides fit together exactly when their connectors are byte-equal;
/// there is no partial compatibility.
#[derive(Debug, Clone, Copy)]
pub struct ConnectorID(pub [u8; 4]);

impl ConnectorID {
    /// Create a connector from arbitrary bytes: the input is hashed and the
    /// first four bytes of the digest are kept. There is no error path.
    pub fn from(id: &[u8]) -> (r: Self)
        ensures
            r.0@ == sha256_of(id@).subrange(0, 4),
    {
        let d = sha256(id);
        let r = ConnectorID([d[0], d[1], d[2], d[3]]);
        proof {
            assert(r.0@ =~= sha256_of(id@).subrange(0, 4));
        }
        r
    }

    /// The fingerprint rendered as eight uppercase hexadecimal digits.
    ///
    /// Relies on std's formatting machinery: `{:02X}` renders a byte as two
    /// uppercase hexadecimal digits, a deterministic function of the byte.
    #[verifier::external_body]
    pub fn to_string(&self) -> (r: String)
        ensures
            r@ == hex8(self.0@),
    {
        format!("{:02X}{:02X}{:02X}{:02X}", self.0[0], self.0[1], self.0[2], self.0[3])
    }

    /// Identical byte sequences always produce identical connectors:
    /// any two connectors fingerprinting the same bytes are equal.
    pub proof fn lemma_from_deterministic(a: ConnectorID, b: ConnectorID, bytes: Seq<u8>)
        requires
            a.0@ == sha256_of(bytes).subrange(0, 4),
            b.0@ == sha256_of(bytes).subrange(0, 4),
        ensures
            a == b,
    {
        assert(a.0 =~= b.0);
    }
}

/// The uppercase hexadecimal digit of a value below 16.
pub open spec fn hex_digit(v: u8) -> char
    recommends
        v < 16,
{
    if v < 10 {
        ((v + 0x30) as char)
    } else {
        ((v + 0x37) as char)
    }
}

/// Four bytes rendered as eight uppercase hexadecimal digits,
/// high digit of each byte first.
pub open spec fn hex8(bytes: Seq<u8>) -> Seq<char>
    recommends
        bytes.len() == 4,
{
    seq![
        hex_digit(bytes[0] / 16),
        hex_digit(bytes[0] % 16),
        hex_digit(bytes[1] / 16),
        hex_digit(bytes[1] % 16),
        hex_digit(bytes[2] / 16),
        hex_digit(bytes[2] % 16),
        hex_digit(bytes[3] / 16),
        hex_digit(bytes[3] % 16),
    ]
}

impl PartialEq for ConnectorID {
    /// Connector equality is exact byte equality.
    fn eq(&self, other: &Self) -> (r: bool) {
        let r = self.0[0] == other.0[0] && self.0[1] == other.0[1] && self.0[2] == other.0[2]
            && self.0[3] == other.0[3];
        proof {
            if r {
                assert(self.0 =~= other.0);
            }
        }
        r
    }
}

impl vstd::std_specs::cmp::PartialEqSpecImpl for ConnectorID {
    open spec fn obeys_eq_spec() -> bool {
        true
    }

    open spec fn eq_spec(&self, other: &ConnectorID) -> bool {
        *self == *other
    }
}

impl Default for ConnectorID {
    /// The all-zero connector, used before a tile's sides are fingerprinted.
    fn default() -> (r: Self)
        ensures
            r.0@ == seq![0u8, 0u8, 0u8, 0u8],
    {
        let r = ConnectorID([0u8, 0u8, 0u8, 0u8]);
        proof {
            assert(r.0@ =~= seq![0u8, 0u8, 0u8, 0u8]);
        }
        r
    }
}

} // verus!
