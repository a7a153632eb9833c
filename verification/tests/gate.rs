use constraint::field::Scalar;
use constraint::gate::arithmetic::{
    AddGate, ArithmeticGate, ConstGate, EqualGate, MulGate, PIGate, SubGate,
};
use constraint::gate::{Gate, INPUT_COUNT, MUL_SELECTOR_COUNT};

fn minus_one() -> Scalar {
    let mut limbs = [
        constraint::field::MODULUS_LIMB_0,
        constraint::field::MODULUS_LIMB_1,
        constraint::field::MODULUS_LIMB_2,
        constraint::field::MODULUS_LIMB_3,
    ];
    limbs[0] -= 1;
    Scalar::from_limbs(limbs).unwrap()
}

#[test]
fn selectors_of_each_gate() {
    let z = Scalar::zero();
    let o = Scalar::one();
    assert_eq!(INPUT_COUNT, 4);
    assert_eq!(MUL_SELECTOR_COUNT, 2);
    assert_eq!((AddGate.q_lc(), AddGate.q_mul(), AddGate.q_o(), AddGate.q_c()), ([o, o, z, z], [z, z], o, z));
    assert_eq!((SubGate.q_lc(), SubGate.q_mul(), SubGate.q_o(), SubGate.q_c()), ([o, minus_one(), z, z], [z, z], o, z));
    assert_eq!((EqualGate.q_lc(), EqualGate.q_mul(), EqualGate.q_o(), EqualGate.q_c()), ([o, minus_one(), z, z], [z, z], o, z));
    assert_eq!((MulGate.q_lc(), MulGate.q_mul(), MulGate.q_o(), MulGate.q_c()), ([z, z, z, z], [o, z], o, z));
    assert_eq!((PIGate.q_lc(), PIGate.q_mul(), PIGate.q_o(), PIGate.q_c()), ([z, z, z, z], [z, z], o, z));
    let c = ConstGate(Scalar::from_u64(42));
    assert_eq!((c.q_lc(), c.q_mul(), c.q_o(), c.q_c()), ([z, z, z, z], [z, z], o, Scalar::from_u64(42)));
}

#[test]
fn names_of_each_gate() {
    assert_eq!(AddGate.name(), "Addition Gate");
    assert_eq!(PIGate.name(), "IO Gate");
    assert_eq!(ConstGate(Scalar::one()).name(), "Constant Gate");
    assert_eq!(EqualGate.name(), "Equal Gate");
    assert_eq!(MulGate.name(), "Mul Gate");
    assert_eq!(SubGate.name(), "Sub Gate");
}

#[test]
fn the_closed_set_answers_as_its_member() {
    let gates = [
        ArithmeticGate::Add(AddGate),
        ArithmeticGate::Sub(SubGate),
        ArithmeticGate::Mul(MulGate),
        ArithmeticGate::Equal(EqualGate),
        ArithmeticGate::Const(ConstGate(Scalar::from_u64(3))),
        ArithmeticGate::PublicInput(PIGate),
    ];
    let names = ["Addition Gate", "Sub Gate", "Mul Gate", "Equal Gate", "Constant Gate", "IO Gate"];
    for (gate, name) in gates.iter().zip(names) {
        assert_eq!(gate.name(), name);
        assert_eq!(gate.q_o(), Scalar::one());
        assert_eq!(gate.is_public_input(), name == "IO Gate");
    }
    assert_eq!(gates[0].q_lc(), AddGate.q_lc());
    assert_eq!(gates[1].q_lc(), SubGate.q_lc());
    assert_eq!(gates[2].q_mul(), MulGate.q_mul());
    assert_eq!(gates[4].q_c(), Scalar::from_u64(3));
}
