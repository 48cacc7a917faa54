use bagalstreatcrab::mod_ints::{U32Mod, U64Mod};
use bagalstreatcrab::ops::{Associative, Identity, Inverse, Op, ADD, MUL, OP};
use bagalstreatcrab::permutations::Permutation;

fn naive<T: Copy, F: Fn(&T, T) -> T>(e: T, n: usize, op: F) -> T {
    let mut r = e;
    for _ in 1..n {
        r = op(&r, e);
    }
    r
}

#[test]
fn identity_is_two_sided_for_bytes() {
    for e in [0u8, 1, 2, 127, 128, 255] {
        let zero = <u8 as Identity<ADD>>::identity();
        assert_eq!(<u8 as Op<ADD>>::op(&e, zero), e);
        assert_eq!(<u8 as Op<ADD>>::op(&zero, e), e);
        let one = <u8 as Identity<MUL>>::identity();
        assert_eq!(<u8 as Op<MUL>>::op(&e, one), e);
        assert_eq!(<u8 as Op<MUL>>::op(&one, e), e);
    }
}

#[test]
fn identity_is_two_sided_for_residues() {
    for v in [0u32, 1, 5, 11] {
        let e = U32Mod::<12>(v);
        let zero = <U32Mod<12> as Identity<ADD>>::identity();
        assert_eq!(<U32Mod<12> as Op<ADD>>::op(&e, zero), e);
        assert_eq!(<U32Mod<12> as Op<ADD>>::op(&zero, e), e);
        let one = <U32Mod<12> as Identity<MUL>>::identity();
        assert_eq!(<U32Mod<12> as Op<MUL>>::op(&e, one), e);
        assert_eq!(<U32Mod<12> as Op<MUL>>::op(&one, e), e);
    }
}

#[test]
fn identity_is_two_sided_for_permutations() {
    let e = Permutation::<4>::try_new(vec![2, 0, 3, 1]).unwrap();
    let id = <Permutation<4> as Identity<OP<1>>>::identity();
    assert!(e.op(id.clone()) == e);
    assert!(id.op(e.clone()) == e);
}

#[test]
fn inverse_gives_identity_for_bytes() {
    for e in [0u8, 1, 2, 127, 128, 255] {
        let inv = <u8 as Inverse<ADD>>::inverse(&e);
        assert_eq!(<u8 as Op<ADD>>::op(&e, inv), 0);
        assert_eq!(<u8 as Op<ADD>>::op(&inv, e), 0);
    }
    assert_eq!(<u8 as Inverse<ADD>>::inverse(&1), 255);
    assert_eq!(<u8 as Inverse<ADD>>::inverse(&0), 0);
}

#[test]
fn inverse_gives_identity_for_residues() {
    for v in [1u32, 5, 11] {
        let e = U32Mod::<12>(v);
        let inv = <U32Mod<12> as Inverse<ADD>>::inverse(&e);
        assert_eq!(inv, U32Mod::<12>(12 - v));
        assert_eq!(<U32Mod<12> as Op<ADD>>::op(&e, inv), U32Mod::<12>(0));
        assert_eq!(<U32Mod<12> as Op<ADD>>::op(&inv, e), U32Mod::<12>(0));
    }
}

#[test]
fn additive_inverse_of_zero_is_the_modulus() {
    let zero = U32Mod::<12>(0);
    let inv = <U32Mod<12> as Inverse<ADD>>::inverse(&zero);
    assert_eq!(inv.0, 12);
    let wide = <U64Mod<1000> as Inverse<ADD>>::inverse(&U64Mod::<1000>(0));
    assert_eq!(wide.0, 1000);
}

#[test]
fn repeated_op_matches_naive_for_bytes() {
    for e in [0u8, 1, 3, 7, 128, 200, 255] {
        for n in 1..=64usize {
            let fast = <u8 as Associative<ADD>>::repeated_op(&e, n);
            assert_eq!(fast, naive(e, n, |a, b| <u8 as Op<ADD>>::op(a, b)));
            assert_eq!(fast, ((n * e as usize) % 256) as u8);
            let fast_mul = <u8 as Associative<MUL>>::repeated_op(&e, n);
            assert_eq!(fast_mul, naive(e, n, |a, b| <u8 as Op<MUL>>::op(a, b)));
        }
    }
}

#[test]
fn repeated_op_matches_naive_for_residues() {
    for v in [0u32, 1, 2, 5, 96] {
        let e = U32Mod::<97>(v);
        for n in 1..=64usize {
            let fast = <U32Mod<97> as Associative<MUL>>::repeated_op(&e, n);
            assert_eq!(fast, naive(e, n, |a, b| <U32Mod<97> as Op<MUL>>::op(a, b)));
            let sum = <U32Mod<97> as Associative<ADD>>::repeated_op(&e, n);
            assert_eq!(sum, U32Mod::<97>((n as u32 * v) % 97));
        }
    }
    assert_eq!(<U32Mod<97> as Associative<MUL>>::repeated_op(&U32Mod::<97>(2), 10), U32Mod::<97>(54));
}

#[test]
fn wider_integers_wrap() {
    assert_eq!(<u16 as Op<ADD>>::op(&0xffff, 2), 1);
    assert_eq!(<u32 as Op<ADD>>::op(&0xffff_ffff, 2), 1);
    assert_eq!(<u64 as Op<ADD>>::op(&u64::MAX, 2), 1);
    assert_eq!(<u16 as Op<MUL>>::op(&0x8000, 2), 0);
    assert_eq!(<u32 as Op<MUL>>::op(&0x1_0001, 0x1_0001), 0x2_0001);
    assert_eq!(<u64 as Op<MUL>>::op(&u64::MAX, u64::MAX), 1);
    assert_eq!(<u16 as Inverse<ADD>>::inverse(&1), 0xffff);
    assert_eq!(<u32 as Inverse<ADD>>::inverse(&0), 0);
    assert_eq!(<u64 as Inverse<ADD>>::inverse(&5), u64::MAX - 4);
    assert_eq!(<u16 as Identity<ADD>>::identity(), 0);
    assert_eq!(<u64 as Identity<MUL>>::identity(), 1);
    assert_eq!(<u32 as Associative<ADD>>::repeated_op(&3, 1000), 3000);
    assert_eq!(<u64 as Associative<MUL>>::repeated_op(&3, 40), 12157665459056928801);
}
