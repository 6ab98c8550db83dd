use oxischeme::heap::Heap;
use oxischeme::value::{list, Value};

#[test]
fn leaf_constructors() {
    assert_eq!(Value::new_integer(42), Value::Integer(42));
    assert_eq!(Value::new_boolean(true), Value::Boolean(true));
    assert_eq!(Value::new_character('q'), Value::Character('q'));
}

#[test]
fn new_pair_holds_car_and_cdr() {
    let mut heap = Heap::new();
    let v = Value::new_pair(&mut heap, Value::Integer(1), Value::Integer(2));
    assert!(v.is_pair());
    assert!(!v.is_atom());
    assert_eq!(v.car(&heap), Some(Value::Integer(1)));
    assert_eq!(v.cdr(&heap), Some(Value::Integer(2)));
    assert_eq!(Value::Integer(1).car(&heap), None);
    assert_eq!(Value::EmptyList.cdr(&heap), None);
}

#[test]
fn new_string_holds_contents() {
    let mut heap = Heap::new();
    let v = Value::new_string(&mut heap, String::from("hello"));
    match v {
        Value::String(p) => assert_eq!(heap.get_string(p), String::from("hello")),
        _ => panic!("expected a string value"),
    }
}

#[test]
fn value_equality_is_identity() {
    let mut heap = Heap::new();
    let a = Value::new_pair(&mut heap, Value::Integer(1), Value::EmptyList);
    let keep = match a {
        Value::Pair(p) => oxischeme::heap::Rooted::new(&mut heap, p),
        _ => panic!("expected a pair"),
    };
    let b = Value::new_pair(&mut heap, Value::Integer(1), Value::EmptyList);
    // Structurally equal pairs are different objects.
    assert_ne!(a, b);
    assert_eq!(a, Value::Pair(keep.get()));
}

#[test]
fn to_symbol_and_to_pair() {
    let mut heap = Heap::new();
    let sym = heap.get_or_create_symbol(String::from("s"));
    let symv = sym.get();
    assert!(symv.to_symbol().is_some());
    assert!(symv.to_pair().is_none());
    let pair = Value::new_pair(&mut heap, Value::EmptyList, Value::EmptyList);
    assert!(pair.to_pair().is_some());
    assert!(pair.to_symbol().is_none());
}

#[test]
fn list_builds_a_proper_list() {
    let mut heap = Heap::new();
    let elems = [Value::Integer(1), Value::Integer(2), Value::Integer(3)];
    let l = list(&mut heap, &elems);
    assert_eq!(l.len(&heap), Ok(3));
    assert_eq!(l.car(&heap), Some(Value::Integer(1)));
    let tail = l.cdr(&heap).unwrap();
    assert_eq!(tail.car(&heap), Some(Value::Integer(2)));
    let tail2 = tail.cdr(&heap).unwrap();
    assert_eq!(tail2.car(&heap), Some(Value::Integer(3)));
    assert_eq!(tail2.cdr(&heap), Some(Value::EmptyList));
}

#[test]
fn empty_list_has_length_zero() {
    let mut heap = Heap::new();
    let l = list(&mut heap, &[]);
    assert_eq!(l, Value::EmptyList);
    assert_eq!(l.len(&heap), Ok(0));
}

#[test]
fn improper_list_length_is_an_error() {
    let mut heap = Heap::new();
    let v = Value::new_pair(&mut heap, Value::Integer(1), Value::Integer(2));
    assert_eq!(v.len(&heap), Err(()));
    assert_eq!(Value::Integer(5).len(&heap), Err(()));
}

#[test]
fn car_cdr_compositions() {
    let mut heap = Heap::new();
    let elems = [
        Value::Integer(10),
        Value::Integer(20),
        Value::Integer(30),
        Value::Integer(40),
    ];
    let l = list(&mut heap, &elems);
    let cons = match l {
        Value::Pair(p) => heap.get_cons(p),
        _ => panic!("expected a pair"),
    };
    assert_eq!(cons.cadr(&heap), Ok(Value::Integer(20)));
    assert_eq!(cons.caddr(&heap), Ok(Value::Integer(30)));
    assert_eq!(cons.cadddr(&heap), Ok(Value::Integer(40)));
    match cons.cddr(&heap) {
        Ok(v) => assert_eq!(v.car(&heap), Some(Value::Integer(30))),
        Err(_) => panic!("cddr of a four-element list must exist"),
    }
    // A two-element list has no cdddr to take the car of.
    let short = list(&mut heap, &[Value::Integer(1), Value::Integer(2)]);
    let short_cons = match short {
        Value::Pair(p) => heap.get_cons(p),
        _ => panic!("expected a pair"),
    };
    assert!(short_cons.cadddr(&heap).is_err());
}

#[test]
fn set_car_and_set_cdr_on_cells() {
    let mut c = oxischeme::value::Cons { car: Value::EmptyList, cdr: Value::EmptyList };
    c.set_car(Value::Integer(1));
    c.set_cdr(Value::Integer(2));
    assert_eq!(c.car(), Value::Integer(1));
    assert_eq!(c.cdr(), Value::Integer(2));
}
