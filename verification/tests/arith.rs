use rpn_logic::binop::{adder, multiplier};
use rpn_logic::rpn_formula::subst_variables;
use rpn_logic::unop::gray_code;

#[test]
fn adder_small_values() {
    assert_eq!(adder(42, 101), 143);
    assert_eq!(adder(0, 0), 0);
    assert_eq!(adder(7, 0), 7);
    assert_eq!(adder(1, 1), 2);
    assert_eq!(adder(12345, 54321), 66666);
}

#[test]
fn adder_wraps_like_machine_addition() {
    assert_eq!(adder(u32::MAX, 1), 0);
    assert_eq!(adder(u32::MAX, u32::MAX), u32::MAX - 1);
    assert_eq!(adder(0x8000_0000, 0x8000_0000), 0);
}

#[test]
fn multiplier_small_values() {
    assert_eq!(multiplier(42, 101), 4242);
    assert_eq!(multiplier(0, 9), 0);
    assert_eq!(multiplier(9, 0), 0);
    assert_eq!(multiplier(1, 9), 9);
    assert_eq!(multiplier(300, 300), 90000);
}

#[test]
fn multiplier_wraps_like_machine_multiplication() {
    assert_eq!(multiplier(0x8000_0000, 2), 0);
    assert_eq!(multiplier(0x4000_0001, 4), 4);
}

#[test]
fn gray_code_small_values() {
    assert_eq!(gray_code(0), 0);
    assert_eq!(gray_code(1), 1);
    assert_eq!(gray_code(2), 3);
    assert_eq!(gray_code(3), 2);
    assert_eq!(gray_code(4), 6);
    assert_eq!(gray_code(42), 63);
}

#[test]
fn gray_code_neighbors_differ_in_one_bit() {
    for a in 0..64u32 {
        let d = gray_code(a) ^ gray_code(a + 1);
        assert_eq!(d.count_ones(), 1);
    }
}

#[test]
fn subst_variables_replaces_listed_letters() {
    let variables = vec!['A', 'B', 'A'];
    let unique = vec!['A', 'B'];
    let mut values = vec![0i32; 4];
    let s = subst_variables("AB&A|", &variables, &unique, &mut values, 2);
    assert_eq!(s, "01&0|");
    assert_eq!(values, vec![0, 1, 0, 0]);
}

#[test]
fn subst_variables_keeps_other_characters() {
    let variables = vec!['P', 'Q'];
    let unique = vec!['P', 'Q'];
    let mut values = vec![9i32; 2];
    let s = subst_variables("PQ>R", &variables, &unique, &mut values, 3);
    assert_eq!(s, "11>R");
    assert_eq!(values, vec![1, 1]);
}
