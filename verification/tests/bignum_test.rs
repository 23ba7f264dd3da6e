use whitespace::bignum::BigNum;

#[test]
fn bignum_instruction_push_nominal() {
    let a = BigNum::new(vec![3, 2, 1]); // 123
    let b = BigNum::new(vec![4, 5, 6]); // 654
    let c = a.add(&b);
    assert_eq!(vec![7, 7, 7], c.v);
}

#[test]
fn instruction_push_nominal2() {
    let a = BigNum::new(vec![2, 1]); // 12
    let b = BigNum::new(vec![4, 3, 7]); // 732
    let c = a.add(&b);
    assert_eq!(vec![6, 4, 7], c.v);
}

#[test]
fn bignum_add_with_carry_growth() {
    let a = BigNum::new(vec![9, 9, 9]); // 999
    let b = BigNum::new(vec![1]); // 1
    let c = a.add(&b);
    assert_eq!(vec![0, 0, 0, 1], c.v);
}

#[test]
fn bignum_add_empty_operands() {
    let a = BigNum::new(vec![]);
    let b = BigNum::new(vec![5]);
    let c = a.add(&b);
    assert_eq!(vec![5], c.v);
    let d = BigNum::new(vec![]).add(&BigNum::new(vec![]));
    assert_eq!(Vec::<i32>::new(), d.v);
}
