use nominal::types::{Tape, Value};

#[test]
fn test_scalar_tape_records_values_in_order() {
    let mut tape = Tape::new(0.0f32);
    let a = tape.value(2.0);
    let b = tape.value(-3.0);
    assert_eq!(tape.index(), 2);
    assert_eq!(a.data(&tape), 2.0);
    assert_eq!(b.data(&tape), -3.0);
    assert_eq!(a.grad(&tape), 0.0);

    let p = a.mul(&mut tape, &b, |x: f32, y: f32| x * y);
    assert_eq!(p.data(&tape), -6.0);
    assert_eq!(p.idx, 2);
    let s = p.add(&mut tape, &a, |x: f32, y: f32| x + y);
    assert_eq!(s.data(&tape), -4.0);

    tape.truncate(2);
    assert_eq!(tape.index(), 2);
}

#[test]
fn test_scalar_operations() {
    let mut tape = Tape::new(0.0f32);
    let x = tape.value(4.0);
    let y = tape.value(2.0);
    let times = |u: f32, v: f32| u * v;
    let plus = |u: f32, v: f32| u + v;

    assert_eq!(x.pow(&mut tape, 0.5, |u: f32, e: f32| u.powf(e)).data(&tape), 2.0);
    assert_eq!(x.neg(&mut tape, -1.0, times).data(&tape), -4.0);
    assert_eq!(x.sub(&mut tape, &y, -1.0, times, plus).data(&tape), 2.0);
    assert_eq!(x.div(&mut tape, &y, -1.0, |u: f32, e: f32| u.powf(e), times).data(&tape), 2.0);
    let e = tape.value(0.0).exp(&mut tape, |u: f32| u.exp());
    assert_eq!(e.data(&tape), 1.0);
    let t = tape.value(0.0).tanh(&mut tape, |u: f32| u.tanh());
    assert_eq!(t.data(&tape), 0.0);
}

#[test]
fn test_scalar_sub_records_negation_then_sum() {
    let mut tape = Tape::new(0.0f32);
    let x = tape.value(5.0);
    let y = tape.value(3.0);
    let d = x.sub(&mut tape, &y, -1.0, |u: f32, v: f32| u * v, |u: f32, v: f32| u + v);
    assert_eq!(d.idx, 4);
    assert_eq!(d.data(&tape), 2.0);
    let neg = Value { idx: 3 };
    assert_eq!(neg.data(&tape), -3.0);
}

#[test]
fn test_set_data_replaces_the_value() {
    let mut tape = Tape::new(0.0f32);
    let x = tape.value(1.0);
    x.set_data(&mut tape, 7.5);
    assert_eq!(x.data(&tape), 7.5);
    assert_eq!(x.grad(&tape), 0.0);
}
