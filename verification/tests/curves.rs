use binary::Binary;
use bls12_381::{G1Affine, G1Projective, G2Affine, G2Projective};
use curve25519_dalek::ristretto::{CompressedRistretto, RistrettoPoint};
use ff::Field;
use group::Group;
use rand::{thread_rng, Fill};

#[test]
fn test_g1affine() {
    let samples = 1000;
    let mut rng = thread_rng();
    for _i in 0..samples {
        let g1: G1Affine = G1Projective::random(&mut rng).into();
        assert_eq!(
            g1,
            <G1Affine as Binary>::from_bytes(&Binary::to_bytes(&g1)).unwrap()
        );
    }
}

#[test]
fn test_g2affine() {
    let samples = 1000;
    let mut rng = thread_rng();
    for _i in 0..samples / 4 {
        let g1: G2Affine = G2Projective::random(&mut rng).into();
        assert_eq!(
            g1,
            <G2Affine as Binary>::from_bytes(&Binary::to_bytes(&g1)).unwrap()
        );
    }
}

#[test]
fn test_scalar() {
    let samples = 10000;
    let mut rng = thread_rng();
    for _i in 0..samples {
        let g1: bls12_381::Scalar = bls12_381::Scalar::random(&mut rng);
        assert_eq!(
            g1,
            <bls12_381::Scalar as Binary>::from_bytes(&Binary::to_bytes(&g1)).unwrap()
        );
    }
}

#[test]
fn test_ristretto() {
    let samples = 10000;
    let mut rng = thread_rng();
    for _i in 0..samples {
        let r = RistrettoPoint::random(&mut rng);
        assert_eq!(
            r,
            <RistrettoPoint as Binary>::from_bytes(&Binary::to_bytes(&r)).unwrap()
        );
        let cr = r.compress();
        assert_eq!(
            cr,
            <CompressedRistretto as Binary>::from_bytes(&Binary::to_bytes(&cr)).unwrap()
        );
    }
}

#[test]
fn test_ristretto_scalar() {
    let samples = 10000;
    let mut rng = thread_rng();
    for _i in 0..samples {
        let r = curve25519_dalek::scalar::Scalar::random(&mut rng);
        assert_eq!(
            r,
            <curve25519_dalek::scalar::Scalar as Binary>::from_bytes(&Binary::to_bytes(&r))
                .unwrap()
        );
    }
}

#[test]
fn test_hash() {
    let samples = 10000;
    let mut rng = thread_rng();
    let mut bytes = [0u8; 100];
    for _i in 0..samples {
        bytes.try_fill(&mut rng).unwrap();
        let r = blake3::hash(&bytes);
        assert_eq!(
            r,
            <blake3::Hash as Binary>::from_bytes(&Binary::to_bytes(&r)).unwrap()
        );
    }
}

#[test]
fn projective_points_are_written_in_affine_form() {
    let mut rng = thread_rng();
    let p = G1Projective::random(&mut rng);
    let bytes = Binary::to_bytes(&p);
    assert_eq!(bytes, G1Affine::from(&p).to_compressed().to_vec());
    assert_eq!(bytes, Binary::to_bytes(&G1Affine::from(&p)));
    assert_eq!(<G1Projective as Binary>::from_bytes(&bytes).unwrap(), p);
    let q = G2Projective::random(&mut rng);
    let bytes = Binary::to_bytes(&q);
    assert_eq!(bytes, G2Affine::from(&q).to_compressed().to_vec());
    assert_eq!(<G2Projective as Binary>::from_bytes(&bytes).unwrap(), q);
}

#[test]
fn leaf_codecs_write_what_their_crates_write() {
    let mut rng = thread_rng();
    let s = bls12_381::Scalar::random(&mut rng);
    assert_eq!(Binary::to_bytes(&s), s.to_bytes().to_vec());
    let r = RistrettoPoint::random(&mut rng);
    assert_eq!(Binary::to_bytes(&r), r.compress().as_bytes().to_vec());
    let d = curve25519_dalek::scalar::Scalar::random(&mut rng);
    assert_eq!(Binary::to_bytes(&d), d.as_bytes().to_vec());
    let h = blake3::hash(b"abc");
    assert_eq!(Binary::to_bytes(&h), h.as_bytes().to_vec());
}

#[test]
fn leaf_codecs_reject_what_their_crates_reject() {
    assert!(<bls12_381::Scalar as Binary>::from_bytes(&[0xff; 32]).is_none());
    assert!(<bls12_381::Scalar as Binary>::from_bytes(&[0; 31]).is_none());
    assert!(<bls12_381::Scalar as Binary>::from_bytes(&[0; 33]).is_none());
    assert!(<bls12_381::Scalar as Binary>::from_bytes(&[0; 32]).is_some());
    assert!(<G1Affine as Binary>::from_bytes(&[0; 48]).is_none());
    assert!(<G1Affine as Binary>::from_bytes(&[0; 47]).is_none());
    assert!(<G2Affine as Binary>::from_bytes(&[0; 96]).is_none());
    assert!(<G1Projective as Binary>::from_bytes(&[0; 48]).is_none());
    assert!(<G2Projective as Binary>::from_bytes(&[0; 96]).is_none());
    assert!(<RistrettoPoint as Binary>::from_bytes(&[0xff; 32]).is_none());
    assert!(<RistrettoPoint as Binary>::from_bytes(&[0; 32]).is_some());
    assert!(<curve25519_dalek::scalar::Scalar as Binary>::from_bytes(&[0xff; 32]).is_none());
    assert!(<curve25519_dalek::scalar::Scalar as Binary>::from_bytes(&[0; 32]).is_some());
    assert!(<CompressedRistretto as Binary>::from_bytes(&[0xff; 32]).is_some());
    assert!(<CompressedRistretto as Binary>::from_bytes(&[0xff; 31]).is_none());
    assert!(<blake3::Hash as Binary>::from_bytes(&[7; 32]).is_some());
    assert!(<blake3::Hash as Binary>::from_bytes(&[7; 33]).is_none());
    let (h, rest) = <blake3::Hash as Binary>::parse(&[7; 33]).unwrap();
    assert_eq!(h.as_bytes(), &[7u8; 32]);
    assert_eq!(rest, &[7u8]);
}
