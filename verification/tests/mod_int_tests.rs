use bagalstreatcrab::mod_ints::{PrecompedInverse, U32CoprimeModPrecomp};
use bagalstreatcrab::ops::Inverse;

const INVERSES_MOD_7: [u32; 6] = [1, 4, 5, 2, 3, 6];

#[derive(Debug)]
struct TableMod7;

impl PrecompedInverse<7> for TableMod7 {
    fn precomped_inverse(value: u32) -> u32 {
        INVERSES_MOD_7[(value - 1) as usize]
    }
}

fn g(x: u32) -> U32CoprimeModPrecomp<7, TableMod7> {
    U32CoprimeModPrecomp::new(x).unwrap()
}

#[test]
fn test_precomped_inverse() {
    let a = g(3);
    let b = g(5);
    let c = a * b;

    assert_eq!(c, g(1));
    assert_eq!(a.inverse(), b);
    assert_eq!(b.inverse(), a);
}

use bagalstreatcrab::errors::ModularError;
use bagalstreatcrab::mod_ints::{
    U128CoprimeMod, U128Mod, U32CoprimeMod, U32Field, U32Mod, U64CoprimeMod, U64Mod,
};
use bagalstreatcrab::ops::{Identity, Op, ADD, MUL};

#[test]
fn table_lookup_agrees_with_every_unit_modulo_seven() {
    for x in 1..7u32 {
        let a = g(x);
        let inv = a.inverse();
        assert_eq!(inv.value(), INVERSES_MOD_7[(x - 1) as usize]);
        assert_eq!(a * inv, g(1));
        assert_eq!(a.clone(), a);
    }
    assert_eq!(<U32CoprimeModPrecomp<7, TableMod7> as Identity<MUL>>::identity(), g(1));
    assert_eq!(U32CoprimeModPrecomp::<7, TableMod7>::new(7).err(), Some(ModularError::ValueOutOfRange));
    assert_eq!(U32CoprimeModPrecomp::<7, TableMod7>::new(0).err(), Some(ModularError::NotCoprime));
}

#[test]
fn residues_add_and_multiply() {
    assert_eq!(U32Mod::<12>(7) + U32Mod::<12>(8), U32Mod::<12>(3));
    assert_eq!(U32Mod::<12>(7) * U32Mod::<12>(8), U32Mod::<12>(8));
    assert_eq!(<U32Mod<12> as Op<ADD>>::op(&U32Mod(11), U32Mod(11)), U32Mod(10));
    assert_eq!(<U32Mod<12> as Op<MUL>>::op(&U32Mod(11), U32Mod(11)), U32Mod(1));
    assert_eq!(U64Mod::<1000000007>(1000000006) + U64Mod::<1000000007>(2), U64Mod::<1000000007>(1));
    assert_eq!(U64Mod::<1000000007>(1000000006) * U64Mod::<1000000007>(1000000006), U64Mod::<1000000007>(1));
    assert_eq!(
        U128Mod::<0x1_0000_0000_0000_0000>(0xffff_ffff_ffff_ffff) * U128Mod::<0x1_0000_0000_0000_0000>(0xffff_ffff_ffff_ffff),
        U128Mod::<0x1_0000_0000_0000_0000>(1)
    );
    assert_eq!(
        U128Mod::<0x8000_0000_0000_0000_0000_0000_0000_0000>(0x7fff_ffff_ffff_ffff_ffff_ffff_ffff_ffff)
            + U128Mod::<0x8000_0000_0000_0000_0000_0000_0000_0000>(0x7fff_ffff_ffff_ffff_ffff_ffff_ffff_ffff),
        U128Mod::<0x8000_0000_0000_0000_0000_0000_0000_0000>(0x7fff_ffff_ffff_ffff_ffff_ffff_ffff_fffe)
    );
    assert_eq!(U32Mod::<0x8000_0000>(0x7fff_ffff) + U32Mod::<0x8000_0000>(0x7fff_ffff), U32Mod::<0x8000_0000>(0x7fff_fffe));
    assert_eq!(U32Mod::<0x1_0000>(0xffff) * U32Mod::<0x1_0000>(0xffff), U32Mod::<0x1_0000>(1));
}

#[test]
fn identities_of_residues() {
    assert_eq!(<U32Mod<12> as Identity<ADD>>::identity(), U32Mod(0));
    assert_eq!(<U32Mod<12> as Identity<MUL>>::identity(), U32Mod(1));
    assert_eq!(<U64Mod<12> as Identity<ADD>>::identity(), U64Mod(0));
    assert_eq!(<U128Mod<12> as Identity<MUL>>::identity(), U128Mod(1));
    assert_eq!(<U32Field<13> as Identity<ADD>>::identity(), U32Field(0));
    assert_eq!(<U32Field<13> as Identity<MUL>>::identity(), U32Field(1));
    assert_eq!(<U32CoprimeMod<12> as Identity<MUL>>::identity().value(), 1);
}

#[test]
fn construction_rejects_unfit_moduli_and_values() {
    assert_eq!(U32Mod::<12>::try_new(11), Ok(U32Mod(11)));
    assert_eq!(U32Mod::<12>::try_new(12), Err(ModularError::ValueOutOfRange));
    assert_eq!(U32Mod::<0>::try_new(0), Err(ModularError::ModulusOutOfRange));
    assert_eq!(U32Mod::<0x8000_0001>::try_new(0), Err(ModularError::ModulusOutOfRange));
    assert_eq!(U32Mod::<0x8000_0000>::try_new(5), Ok(U32Mod(5)));
    assert_eq!(U32Mod::<1>::try_new(0), Ok(U32Mod(0)));
    assert_eq!(U32Mod::<1>::try_new_multiplicative(0), Err(ModularError::ModulusOutOfRange));
    assert_eq!(U32Mod::<0x1_0000>::try_new_multiplicative(9), Ok(U32Mod(9)));
    assert_eq!(U32Mod::<0x1_0001>::try_new_multiplicative(9), Err(ModularError::ModulusOutOfRange));
    assert_eq!(U32Mod::<12>::try_new_multiplicative(12), Err(ModularError::ValueOutOfRange));
    assert_eq!(U64Mod::<0x1_0000_0001>::try_new_multiplicative(9), Err(ModularError::ModulusOutOfRange));
    assert_eq!(U64Mod::<0x1_0000_0001>::try_new(9), Ok(U64Mod(9)));
    assert_eq!(U128Mod::<0x1_0000_0000_0000_0001>::try_new_multiplicative(9), Err(ModularError::ModulusOutOfRange));
    assert_eq!(U128Mod::<0x1_0000_0000_0000_0001>::try_new(9), Ok(U128Mod(9)));
}

#[test]
fn units_are_checked_at_construction() {
    assert_eq!(U32CoprimeMod::<12>::new(5).map(|x| x.value()), Ok(5));
    assert_eq!(U32CoprimeMod::<12>::new(1).map(|x| x.value()), Ok(1));
    assert_eq!(U32CoprimeMod::<12>::new(4).err(), Some(ModularError::NotCoprime));
    assert_eq!(U32CoprimeMod::<12>::new(0).err(), Some(ModularError::NotCoprime));
    assert_eq!(U32CoprimeMod::<12>::new(12).err(), Some(ModularError::ValueOutOfRange));
    assert_eq!(U32CoprimeMod::<12>::new(13).err(), Some(ModularError::ValueOutOfRange));
    assert_eq!(U32CoprimeMod::<1>::new(0).err(), Some(ModularError::ModulusOutOfRange));
    assert_eq!(U32CoprimeMod::<0x1_0001>::new(1).err(), Some(ModularError::ModulusOutOfRange));
    assert_eq!(U64CoprimeMod::<0x1_0000_0000>::new(3).map(|x| x.value()), Ok(3));
    assert_eq!(U64CoprimeMod::<0x1_0000_0000>::new(2).err(), Some(ModularError::NotCoprime));
    assert_eq!(U128CoprimeMod::<0x1_0000_0000_0000_0000>::new(3).map(|x| x.value()), Ok(3));
    assert_eq!(U128CoprimeMod::<0x1_0000_0000_0000_0001>::new(3).err(), Some(ModularError::ModulusOutOfRange));
}

#[test]
fn units_have_inverses() {
    let three = U32CoprimeMod::<7>::new(3).unwrap();
    assert_eq!(three.inverse().value(), 5);
    assert_eq!((three * three.inverse()).value(), 1);
    assert_eq!(U32CoprimeMod::<12>::new(5).unwrap().inverse().value(), 5);
    assert_eq!(U32CoprimeMod::<12>::new(7).unwrap().inverse().value(), 7);
    assert_eq!(U32CoprimeMod::<10>::new(7).unwrap().inverse().value(), 3);
    let wide = U64CoprimeMod::<1000000007>::new(2).unwrap();
    assert_eq!(wide.inverse().value(), 500000004);
    assert_eq!((wide * wide.inverse()).value(), 1);
    let huge = U128CoprimeMod::<0x1_0000_0000_0000_0000>::new(3).unwrap();
    assert_eq!(huge.inverse().value(), 12297829382473034411);
    assert_eq!(<U128CoprimeMod<0x1_0000_0000_0000_0000> as Op<MUL>>::op(&huge, huge.inverse()).value(), 1);
    for m in 1..12u32 {
        if let Ok(x) = U32CoprimeMod::<12>::new(m) {
            assert_eq!((x * x.inverse()).value(), 1);
            assert_eq!((x.inverse() * x).value(), 1);
        }
    }
}

#[test]
fn prime_field() {
    assert_eq!(U32Field::<13>(7) + U32Field::<13>(8), U32Field::<13>(2));
    assert_eq!(U32Field::<13>(7) * U32Field::<13>(8), U32Field::<13>(4));
    assert_eq!(U32Field::<13>(7) * U32Field::<13>(0), U32Field::<13>(0));
    assert_eq!(<U32Field<13> as Inverse<ADD>>::inverse(&U32Field(5)), U32Field(8));
    assert_eq!(<U32Field<13> as Inverse<ADD>>::inverse(&U32Field(0)), U32Field(13));
    assert_eq!(<U32Field<13> as Inverse<MUL>>::inverse(&U32Field(5)), U32Field(8));
    assert_eq!(<U32Field<13> as Inverse<MUL>>::inverse(&U32Field(1)), U32Field(1));
    for v in 1..13u32 {
        let x = U32Field::<13>(v);
        let inv = <U32Field<13> as Inverse<MUL>>::inverse(&x);
        assert_eq!(<U32Field<13> as Op<MUL>>::op(&x, inv), U32Field(1));
    }
    assert_eq!(U32Field::<13>::try_new(12), Ok(U32Field(12)));
    assert_eq!(U32Field::<13>::try_new(13), Err(ModularError::ValueOutOfRange));
    assert_eq!(U32Field::<0>::try_new(0), Err(ModularError::ModulusOutOfRange));
    assert_eq!(U32Field::<13>::try_new_multiplicative(12), Ok(U32Field(12)));
    assert_eq!(U32Field::<13>::try_new_multiplicative(0), Err(ModularError::ValueOutOfRange));
    assert_eq!(U32Field::<13>::try_new_multiplicative(13), Err(ModularError::ValueOutOfRange));
    assert_eq!(U32Field::<12>::try_new_multiplicative(5), Err(ModularError::ModulusNotPrime));
    assert_eq!(U32Field::<1>::try_new_multiplicative(0), Err(ModularError::ModulusOutOfRange));
    assert_eq!(U32Field::<65537>::try_new_multiplicative(1), Err(ModularError::ModulusOutOfRange));
}

#[derive(Debug)]
struct WrongTable;

impl PrecompedInverse<7> for WrongTable {
    fn precomped_inverse(_value: u32) -> u32 {
        1
    }
}

#[test]
fn a_wrong_table_entry_is_not_used() {
    let three = U32CoprimeModPrecomp::<7, WrongTable>::new(3).unwrap();
    assert_eq!(three.inverse().value(), 5);
    let one = U32CoprimeModPrecomp::<7, WrongTable>::new(1).unwrap();
    assert_eq!(one.inverse().value(), 1);
}
