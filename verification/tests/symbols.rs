use oxischeme::heap::Heap;
use oxischeme::value::Value;

#[test]
fn interning_twice_yields_identical_handles() {
    let mut heap = Heap::new();
    let s1 = heap.get_or_create_symbol(String::from("foo"));
    let s2 = heap.get_or_create_symbol(String::from("foo"));
    assert_eq!(s1.get(), s2.get());
    let other = heap.get_or_create_symbol(String::from("bar"));
    assert_ne!(s1.get(), other.get());
}

#[test]
fn interned_symbol_holds_its_name() {
    let mut heap = Heap::new();
    let s = heap.get_or_create_symbol(String::from("lambda-list"));
    match s.get() {
        Value::Symbol(p) => assert_eq!(heap.get_string(p), String::from("lambda-list")),
        _ => panic!("expected a symbol"),
    }
}

#[test]
fn interned_symbols_survive_collection_unrooted() {
    let mut heap = Heap::new();
    let s = heap.get_or_create_symbol(String::from("keep"));
    let first = s.get();
    heap.drop_root(&s);
    heap.collect_garbage();
    let again = heap.get_or_create_symbol(String::from("keep"));
    assert_eq!(first, again.get());
}

#[test]
fn known_symbols_are_stable() {
    let mut heap = Heap::new();
    let q1 = heap.quote_symbol();
    let q2 = heap.quote_symbol();
    assert_eq!(q1.get(), q2.get());
    assert_ne!(heap.if_symbol().get(), heap.begin_symbol().get());
    assert_ne!(heap.define_symbol().get(), heap.set_bang_symbol().get());
    assert_ne!(heap.lambda_symbol().get(), heap.unspecified_symbol().get());
}

#[test]
fn eof_symbol_is_unreadable() {
    let mut heap = Heap::new();
    let eof = heap.eof_symbol();
    match eof.get() {
        Value::Symbol(p) => {
            let name = heap.get_string(p);
            assert!(name.contains(' '));
        },
        _ => panic!("expected a symbol"),
    }
}
