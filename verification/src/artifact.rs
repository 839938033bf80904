//! A failure saved with everything a replay needs.
//!
//! An artifact is a versioned envelope around a program: the scenario it ran against, the
//! revisions of what it was built against, how a campaign came to it, and what the oracle
//! said. The program's own context carries the deployment's seed, and that is the only place
//! the seed is written, so an artifact cannot disagree with itself about it.
//!
//! The envelope is a header, the marker then the version as postcard writes them, followed by
//! the postcard encoding of the artifact. This module writes and checks the header and tells
//! an artifact from a bare program; turning the body into values is serde's work.
use vstd::prelude::*;

use crate::program::Program;
use crate::text::{decimal, decimal_u64};

verus! {

/// Marks a file as an artifact rather than a bare program, which is what the CLI writes and
/// what a scenario binary also accepts: `stratamo`.
pub const MAGIC: [u8; 8] = [115, 116, 114, 97, 116, 97, 109, 111];

/// The envelope's format.
///
/// Bumped whenever the envelope or the program it carries changes shape, so that an older file
/// fails with its version rather than as garbage. The header that carries it, the marker then
/// the version, never changes shape itself.
pub const VERSION: u32 = 2;

#[derive(Debug, Clone, PartialEq, Eq)]
pub struct Artifact {
    /// What was run. Its context carries the deployment's seed.
    pub program: Program,
    /// The scenario it ran against, by name.
    pub scenario: String,
    /// What the harness was built against: the roles under test, their launchers, the protocol
    /// library both sides share, and the harness itself.
    pub revisions: Vec<Revision>,
    /// How the program was found, when a campaign found it rather than a hand.
    pub campaign: Option<Campaign>,
    /// What the oracle said.
    pub verdict: String,
    /// Whether the program drew the verdict again when run once more from a clean start.
    pub confirmed: bool,
    /// The record of the run that drew the verdict, as the harness that wrote the artifact
    /// encodes it. The program is what replays; this is what was seen.
    pub trace: Option<Vec<u8>>,
}

/// A crate the harness was built against, as the lock file pins it.
#[derive(Debug, Clone, PartialEq, Eq)]
pub struct Revision {
    pub name: String,
    pub version: String,
    /// Where it came from, with the exact commit for a git dependency.
    pub source: String,
}

/// The campaign that found a program.
///
/// Against a real target the program's seed reproduces nothing, since the target does not run
/// on the simulator; the campaign's seed and the target's revision are what reproduce the search
/// that found it.
#[derive(Debug, Clone, PartialEq, Eq)]
pub struct Campaign {
    /// The seed of the campaign's random source, which drives generation and mutation.
    pub seed: u64,
    /// The iteration the program was run at; zero for one found while seeding the corpus.
    pub iteration: u64,
    /// The corpus entry it was mutated from, copied in so that a replay does not depend on the
    /// corpus. None for a seed program, which was generated rather than mutated.
    pub parent: Option<Program>,
}

#[derive(Debug, Clone, PartialEq, Eq)]
pub enum ArtifactError {
    /// The bytes do not start with the artifact marker.
    NotAnArtifact,
    /// The artifact was written by another version of the envelope.
    UnsupportedVersion { found: u32, supported: u32 },
    /// The marker and version are right and the rest is not.
    Corrupt(String),
}

/// A `u32` as a postcard varint: seven bits a byte, least significant first, the high bit set
/// on every byte but the last.
pub open spec fn varint(n: nat) -> Seq<u8>
    decreases n,
{
    if n < 128 {
        seq![n as u8]
    } else {
        seq![(n % 128 + 128) as u8] + varint(n / 128)
    }
}

/// What postcard reads as a `u32` varint from the start of `rest`, with `left` bytes at most
/// still allowed, and how many bytes it took: a byte without the high bit ends it, and the
/// fifth byte may carry no more than the four bits a `u32` has left.
pub open spec fn varint_read(rest: Seq<u8>, left: nat) -> Option<(nat, nat)>
    decreases left,
{
    if left == 0 || rest.len() == 0 {
        None
    } else if rest[0] < 128 {
        if left == 1 && rest[0] > 15 {
            None
        } else {
            Some((rest[0] as nat, 1nat))
        }
    } else {
        match varint_read(rest.drop_first(), (left - 1) as nat) {
            Some((value, used)) => Some((((rest[0] - 128) + 128 * value) as nat, used + 1)),
            None => None,
        }
    }
}

/// The values a varint of at most `left` bytes holds: seven bits a byte, and four in the last.
pub open spec fn varint_room(left: nat) -> nat
    decreases left,
{
    if left <= 1 {
        16
    } else {
        128 * varint_room((left - 1) as nat)
    }
}

/// A number that fits in `left` bytes is read back from its varint, whatever follows it.
pub proof fn lemma_varint_read_back(n: nat, rest: Seq<u8>, left: nat)
    requires
        left >= 1,
        n < varint_room(left),
    ensures
        varint_read(varint(n) + rest, left) == Some((n, varint(n).len())),
    decreases left,
{
    let bytes = varint(n) + rest;
    if n < 128 {
        assert(bytes[0] == n as u8);
    } else {
        assert(left > 1);
        let tail = varint(n / 128);
        assert(bytes.drop_first() =~= tail + rest);
        assert(n / 128 < varint_room((left - 1) as nat)) by (nonlinear_arith)
            requires
                n < 128 * varint_room((left - 1) as nat),
        ;
        lemma_varint_read_back(n / 128, rest, (left - 1) as nat);
    }
}

/// Decoding what encoding wrote gives the body back: the header of any version a `u32` holds
/// is read back whole, and nothing of the body is taken with it.
pub proof fn lemma_envelope_round_trip(version: u32, body: Seq<u8>)
    ensures
        header_read(magic() + varint(version as nat) + body) == Some((magic(), version as nat, body)),
{
    let bytes = magic() + varint(version as nat) + body;
    assert(varint_room(5) == 0x1_0000_0000) by {
        reveal_with_fuel(varint_room, 5);
    }
    assert(bytes.subrange(8, bytes.len() as int) =~= varint(version as nat) + body);
    lemma_varint_read_back(version as nat, body, 5);
    let used = varint(version as nat).len();
    assert(bytes.subrange(0, 8) =~= magic());
    assert(bytes.subrange(8 + used as int, bytes.len() as int) =~= body);
}

/// The header postcard reads from the start of `bytes`: eight bytes of marker, then the
/// version as a varint of at most five bytes; with what follows it.
pub open spec fn header_read(bytes: Seq<u8>) -> Option<(Seq<u8>, nat, Seq<u8>)> {
    if bytes.len() < 8 {
        None
    } else {
        match varint_read(bytes.subrange(8, bytes.len() as int), 5) {
            Some((version, used)) => Some((bytes.subrange(0, 8), version, bytes.subrange(8 + used as int, bytes.len() as int))),
            None => None,
        }
    }
}

/// `postcard::to_allocvec` of a marker and a version, the header of an envelope: the eight
/// bytes as they are, then the version as a varint. Writing to a growing vector does not fail.
#[verifier::external_body]
fn header_bytes(magic: [u8; 8], version: u32) -> (r: Option<Vec<u8>>)
    ensures
        r is Some,
        r matches Some(bytes) ==> (bytes@ == magic@ + varint(version as nat)),
{
    postcard::to_allocvec(&(magic, version)).ok()
}

/// `postcard::take_from_bytes` of a marker and a version: the header at the start of the
/// bytes and the rest of them, or none when they do not start with one.
#[verifier::external_body]
fn take_header(bytes: &[u8]) -> (r: Option<([u8; 8], u32, Vec<u8>)>)
    ensures
        r is Some <==> header_read(bytes@) is Some,
        r matches Some((magic, version, rest)) ==> (header_read(bytes@) == Some((magic@, version as nat, rest@))),
{
    match postcard::take_from_bytes::<([u8; 8], u32)>(bytes) {
        Ok(((magic, version), rest)) => Some((magic, version, rest.to_vec())),
        Err(_) => None,
    }
}

/// The marker, as a sequence.
pub open spec fn magic() -> Seq<u8> {
    seq![115u8, 116, 114, 97, 116, 97, 109, 111]
}

/// The envelope around the encoding of an artifact: the header, then the body.
pub fn encode_envelope(body: &[u8]) -> (bytes: Vec<u8>)
    ensures
        bytes@ == magic() + varint(VERSION as nat) + body@,
{
    let magic_bytes: [u8; 8] = MAGIC;
    assert(magic_bytes@ =~= magic());
    let mut bytes = match header_bytes(magic_bytes, VERSION) {
        Some(bytes) => bytes,
        None => Vec::new(),
    };
    let ghost header = bytes@;
    let mut k: usize = 0;
    while k < body.len()
        invariant
            k <= body@.len(),
            header == magic() + varint(VERSION as nat),
            bytes@ == header + body@.take(k as int),
        decreases body@.len() - k,
    {
        bytes.push(body[k]);
        k = k + 1;
        assert(bytes@ =~= header + body@.take(k as int));
    }
    assert(body@.take(body@.len() as int) =~= body@);
    bytes
}

/// The body of an artifact envelope: what follows a header with the marker and this version.
pub fn decode_envelope(bytes: &[u8]) -> (r: Result<Vec<u8>, ArtifactError>)
    ensures
        match header_read(bytes@) {
            None => r == Err::<Vec<u8>, ArtifactError>(ArtifactError::NotAnArtifact),
            Some((marker, version, rest)) => if marker != magic() {
                r == Err::<Vec<u8>, ArtifactError>(ArtifactError::NotAnArtifact)
            } else if version != VERSION {
                r == Err::<Vec<u8>, ArtifactError>(ArtifactError::UnsupportedVersion { found: version as u32, supported: VERSION })
            } else {
                r matches Ok(body) && body@ == rest
            },
        },
{
    let (marker, version, rest) = match take_header(bytes) {
        Some(header) => header,
        None => {
            return Err(ArtifactError::NotAnArtifact);
        },
    };
    let expected: [u8; 8] = MAGIC;
    let mut k: usize = 0;
    while k < 8
        invariant
            k <= 8,
            expected@ == magic(),
            header_read(bytes@) == Some((marker@, version as nat, rest@)),
            forall|j: int| 0 <= j < k ==> marker@[j] == expected@[j],
        decreases 8 - k,
    {
        if marker[k] != expected[k] {
            assert(marker@ != magic());
            return Err(ArtifactError::NotAnArtifact);
        }
        k = k + 1;
    }
    assert(marker@ =~= magic());
    if version != VERSION {
        return Err(ArtifactError::UnsupportedVersion { found: version, supported: VERSION });
    }
    Ok(rest)
}

/// Where a program is to be read from, given the bytes it was written as.
pub enum ProgramSource {
    /// The bytes are an artifact; this is the body of its envelope, which holds the program.
    Artifact(Vec<u8>),
    /// The bytes do not start with the marker, so they are a bare program as the CLI writes it.
    Bare,
}

/// A program from either form it is written in: an artifact, or a bare program. An envelope of
/// another version is an error rather than a bare program.
pub fn program_source(bytes: &[u8]) -> (r: Result<ProgramSource, ArtifactError>)
    ensures
        match header_read(bytes@) {
            None => r matches Ok(ProgramSource::Bare),
            Some((marker, version, rest)) => if marker != magic() {
                r matches Ok(ProgramSource::Bare)
            } else if version != VERSION {
                r == Err::<ProgramSource, ArtifactError>(ArtifactError::UnsupportedVersion { found: version as u32, supported: VERSION })
            } else {
                r matches Ok(ProgramSource::Artifact(body)) && body@ == rest
            },
        },
{
    match decode_envelope(bytes) {
        Ok(body) => Ok(ProgramSource::Artifact(body)),
        Err(ArtifactError::NotAnArtifact) => Ok(ProgramSource::Bare),
        Err(e) => Err(e),
    }
}

impl ArtifactError {
    /// What went wrong, in words.
    pub fn message(&self) -> (m: String)
        ensures
            m@ == match self {
                ArtifactError::NotAnArtifact => "not a stratamoto artifact"@,
                ArtifactError::UnsupportedVersion { found, supported } => "artifact version "@ + decimal(*found as nat)
                    + " is not supported; this build reads version "@ + decimal(*supported as nat),
                ArtifactError::Corrupt(e) => "corrupt artifact: "@ + e@,
            },
    {
        match self {
            ArtifactError::NotAnArtifact => "not a stratamoto artifact".to_owned(),
            ArtifactError::UnsupportedVersion { found, supported } => {
                let mut m = "artifact version ".to_owned();
                m.append(decimal_u64(*found as u64).as_str());
                m.append(" is not supported; this build reads version ");
                m.append(decimal_u64(*supported as u64).as_str());
                m
            },
            ArtifactError::Corrupt(e) => {
                let mut m = "corrupt artifact: ".to_owned();
                m.append(e.as_str());
                m
            },
        }
    }
}

} // verus!
