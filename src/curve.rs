use vstd::prelude::*;

verus! {

use curve25519_dalek::ristretto::{
    CompressedRistretto, RistrettoBasepointTable, RistrettoPoint, VartimeRistrettoPrecomputation,
};
use curve25519_dalek::scalar::Scalar;
use curve25519_dalek::traits::{Identity, VartimePrecomputedMultiscalarMul};

/// Whether `b` is the canonical encoding of a Ristretto point (it decompresses).
pub uninterp spec fn is_point(b: Seq<u8>) -> bool;

/// The encoding of the sum of the points encoded by `a` and `b`.
pub uninterp spec fn point_sum(a: Seq<u8>, b: Seq<u8>) -> [u8; 32];

/// The encoding of the point encoded by `a` minus the one encoded by `b`.
pub uninterp spec fn point_difference(a: Seq<u8>, b: Seq<u8>) -> [u8; 32];

/// The encoding of the Ristretto point that BLAKE2b-512 of `b` maps to.
pub uninterp spec fn hash_to_point(b: Seq<u8>) -> [u8; 32];

/// The encoding of the scalar that BLAKE2b-512 of `b` maps to.
pub uninterp spec fn scalar_from_hash(b: Seq<u8>) -> [u8; 32];

/// The encoding of the scalar encoded by `a` minus the one encoded by `b`.
pub uninterp spec fn scalar_difference(a: Seq<u8>, b: Seq<u8>) -> [u8; 32];

/// The encoding of the point encoded by `base`, multiplied by the scalar encoded by `s`.
pub uninterp spec fn base_mul(base: Seq<u8>, s: Seq<u8>) -> [u8; 32];

/// The encoding of the sum of `scalars[i]` times `bases[i]`, over all `i`.
pub uninterp spec fn multiscalar_mul(bases: Seq<Seq<u8>>, scalars: Seq<Seq<u8>>) -> [u8; 32];

/// 32 zero bytes: the encoding of the identity point, and of the scalar 0.
pub open spec fn zeros() -> [u8; 32] {
    [0u8; ENCODING_LENGTH]
}

/// The length of an encoded point or scalar.
pub const ENCODING_LENGTH: usize = 32;

#[verifier::external_type_specification]
#[verifier::external_body]
pub struct ExRistrettoBasepointTable(RistrettoBasepointTable);

#[verifier::external_type_specification]
#[verifier::external_body]
pub struct ExVartimeRistrettoPrecomputation(VartimeRistrettoPrecomputation);

/// Relies on `CompressedRistretto::decompress`: whether `b` decompresses.
#[verifier::external_body]
pub fn decompresses(b: &[u8; 32]) -> (r: bool)
    ensures
        r == is_point(b@),
{
    CompressedRistretto(*b).decompress().is_some()
}

/// Relies on `CompressedRistretto::identity`: the identity is encoded as 32 zero bytes, which
/// decompress.
#[verifier::external_body]
pub fn identity_point() -> (r: [u8; 32])
    ensures
        r == zeros(),
        is_point(r@),
{
    CompressedRistretto::identity().to_bytes()
}

/// Relies on `RistrettoPoint`'s `+`, between decompressed points, and `compress`.
#[verifier::external_body]
pub fn add_points(a: &[u8; 32], b: &[u8; 32]) -> (r: [u8; 32])
    requires
        is_point(a@),
        is_point(b@),
    ensures
        r == point_sum(a@, b@),
        is_point(r@),
{
    let pa = CompressedRistretto(*a).decompress().unwrap();
    let pb = CompressedRistretto(*b).decompress().unwrap();
    (pa + pb).compress().to_bytes()
}

/// Relies on `RistrettoPoint`'s `-`, between decompressed points, and `compress`.
#[verifier::external_body]
pub fn sub_points(a: &[u8; 32], b: &[u8; 32]) -> (r: [u8; 32])
    requires
        is_point(a@),
        is_point(b@),
    ensures
        r == point_difference(a@, b@),
        is_point(r@),
{
    let pa = CompressedRistretto(*a).decompress().unwrap();
    let pb = CompressedRistretto(*b).decompress().unwrap();
    (pa - pb).compress().to_bytes()
}

/// Relies on `RistrettoPoint::hash_from_bytes::<Blake2b512>`, then `compress`.
#[verifier::external_body]
pub fn hash_bytes_to_point(bytes: &[u8]) -> (r: [u8; 32])
    ensures
        r == hash_to_point(bytes@),
        is_point(r@),
{
    RistrettoPoint::hash_from_bytes::<blake2::Blake2b512>(bytes).compress().to_bytes()
}

/// Relies on `Scalar::hash_from_bytes::<Blake2b512>`, then `to_bytes`.
#[verifier::external_body]
pub fn hash_bytes_to_scalar(bytes: &[u8]) -> (r: [u8; 32])
    ensures
        r == scalar_from_hash(bytes@),
{
    Scalar::hash_from_bytes::<blake2::Blake2b512>(bytes).to_bytes()
}

/// Relies on `Scalar`'s `-`, between scalars read with `from_bytes_mod_order`.
#[verifier::external_body]
pub fn sub_scalars(a: &[u8; 32], b: &[u8; 32]) -> (r: [u8; 32])
    ensures
        r == scalar_difference(a@, b@),
{
    (Scalar::from_bytes_mod_order(*a) - Scalar::from_bytes_mod_order(*b)).to_bytes()
}

/// A base point with its table of precomputed multiples.
pub struct BaseTable {
    base: [u8; 32],
    table: RistrettoBasepointTable,
}

impl BaseTable {
    /// The encoding of the base point.
    pub closed spec fn base(&self) -> Seq<u8> {
        self.base@
    }
}

/// Relies on `RistrettoBasepointTable::create` on the decompressed base point; this is the only
/// place where a `BaseTable` is made, so its table always belongs to its base.
#[verifier::external_body]
pub fn make_base_table(base: [u8; 32]) -> (r: BaseTable)
    requires
        is_point(base@),
    ensures
        r.base() == base@,
{
    let point = CompressedRistretto(base).decompress().unwrap();
    BaseTable { base, table: RistrettoBasepointTable::create(&point) }
}

/// Relies on `&RistrettoBasepointTable * &Scalar` (the scalar read with `from_bytes_mod_order`),
/// then `compress`.
#[verifier::external_body]
pub fn table_mul(t: &BaseTable, s: &[u8; 32]) -> (r: [u8; 32])
    ensures
        r == base_mul(t.base(), s@),
        is_point(r@),
{
    (&t.table * &Scalar::from_bytes_mod_order(*s)).compress().to_bytes()
}

/// Base points with the precomputation for multi-scalar multiplication over all of them.
pub struct MsmTable {
    bases: Vec<[u8; 32]>,
    pre: VartimeRistrettoPrecomputation,
}

impl MsmTable {
    /// The encodings of the base points.
    pub closed spec fn bases(&self) -> Seq<Seq<u8>> {
        self.bases@.map_values(|b: [u8; 32]| b@)
    }
}

/// Relies on `VartimeRistrettoPrecomputation::new` on the decompressed base points; this is the
/// only place where an `MsmTable` is made, so its precomputation always belongs to its bases.
#[verifier::external_body]
pub fn make_msm_table(bases: Vec<[u8; 32]>) -> (r: MsmTable)
    requires
        forall|i: int| 0 <= i < bases@.len() ==> is_point(#[trigger] bases@[i]@),
    ensures
        r.bases() == bases@.map_values(|b: [u8; 32]| b@),
{
    let points: Vec<RistrettoPoint> = bases.iter().map(
        |b| CompressedRistretto(*b).decompress().unwrap(),
    ).collect();
    MsmTable { pre: VartimeRistrettoPrecomputation::new(points), bases }
}

/// Relies on `VartimeRistrettoPrecomputation::vartime_multiscalar_mul` (the scalars read with
/// `from_bytes_mod_order`, one per base point), then `compress`.
#[verifier::external_body]
pub fn msm(t: &MsmTable, scalars: &Vec<[u8; 32]>) -> (r: [u8; 32])
    requires
        scalars@.len() == t.bases().len(),
    ensures
        r == multiscalar_mul(t.bases(), scalars@.map_values(|s: [u8; 32]| s@)),
        is_point(r@),
{
    let s: Vec<Scalar> = scalars.iter().map(|b| Scalar::from_bytes_mod_order(*b)).collect();
    t.pre.vartime_multiscalar_mul(s).compress().to_bytes()
}

} // verus!
