use oxischeme::environment::{Activation, Environment};
use oxischeme::heap::{Heap, Rooted};
use oxischeme::value::Value;

#[test]
fn define_then_lookup_uses_next_slot() {
    let mut env = Environment::new();
    let (i, j) = env.define(String::from("x"));
    assert_eq!((i, j), (0, 0));
    let (i2, j2) = env.define(String::from("y"));
    assert_eq!((i2, j2), (0, 1));
    assert_eq!(env.lookup(&String::from("x")), Some((0, 0)));
    assert_eq!(env.lookup(&String::from("y")), Some((0, 1)));
}

#[test]
fn redefining_returns_original_slot() {
    let mut env = Environment::new();
    assert_eq!(env.define(String::from("x")), (0, 0));
    assert_eq!(env.define(String::from("y")), (0, 1));
    assert_eq!(env.define(String::from("x")), (0, 0));
    assert_eq!(env.lookup(&String::from("x")), Some((0, 0)));
}

#[test]
fn extend_binds_names_in_order() {
    let mut env = Environment::new();
    env.extend(vec![String::from("a"), String::from("b"), String::from("c")]);
    assert_eq!(env.lookup(&String::from("a")), Some((0, 0)));
    assert_eq!(env.lookup(&String::from("b")), Some((0, 1)));
    assert_eq!(env.lookup(&String::from("c")), Some((0, 2)));
}

#[test]
fn outer_bindings_are_deeper() {
    let mut env = Environment::new();
    env.define(String::from("g"));
    env.extend(vec![String::from("a")]);
    assert_eq!(env.lookup(&String::from("g")), Some((1, 0)));
    assert_eq!(env.lookup(&String::from("a")), Some((0, 0)));
}

#[test]
fn lexical_shadowing() {
    let mut env = Environment::new();
    env.extend(vec![String::from("x")]);
    assert_eq!(env.lookup(&String::from("x")), Some((0, 0)));
    env.extend(vec![String::from("x")]);
    assert_eq!(env.lookup(&String::from("x")), Some((0, 0)));
    env.pop();
    assert_eq!(env.lookup(&String::from("x")), Some((0, 0)));
    env.pop();
    assert_eq!(env.lookup(&String::from("x")), None);
}

#[test]
fn activation_chain_fetch() {
    let mut heap = Heap::new();
    // Global activation with two seeded slots.
    heap.define_primitive(String::from("a"), Value::Integer(1));
    heap.define_primitive(String::from("b"), Value::Integer(2));
    let g = heap.global_activation();
    let v_c = Rooted::new(&mut heap, Value::Integer(3));
    let a1 = Activation::extend(&mut heap, &g, vec![v_c]);
    let v_d = Rooted::new(&mut heap, Value::Integer(4));
    let v_e = Rooted::new(&mut heap, Value::Integer(5));
    let a2 = Activation::extend(&mut heap, &a1, vec![v_d, v_e]);
    let act2 = heap.read_activation(a2.get());
    assert_eq!(act2.len(), 2);
    let r = act2.fetch(&mut heap, 0, 1);
    assert_eq!(r.get(), Value::Integer(5));
    let r = act2.fetch(&mut heap, 1, 0);
    assert_eq!(r.get(), Value::Integer(3));
    let r = act2.fetch(&mut heap, 2, 0);
    assert_eq!(r.get(), Value::Integer(1));
    let r = act2.fetch(&mut heap, 2, 1);
    assert_eq!(r.get(), Value::Integer(2));
}

#[test]
fn activation_update_writes_through_the_chain() {
    let mut heap = Heap::new();
    heap.define_primitive(String::from("a"), Value::Integer(1));
    let g = heap.global_activation();
    let v = Rooted::new(&mut heap, Value::Integer(3));
    let a1 = Activation::extend(&mut heap, &g, vec![v]);
    let nine = Rooted::new(&mut heap, Value::Integer(9));
    a1.get().update(&mut heap, 1, 0, &nine);
    let act1 = heap.read_activation(a1.get());
    let r = act1.fetch(&mut heap, 1, 0);
    assert_eq!(r.get(), Value::Integer(9));
    let seven = Rooted::new(&mut heap, Value::Integer(7));
    a1.get().update(&mut heap, 0, 0, &seven);
    let act1 = heap.read_activation(a1.get());
    let r = act1.fetch(&mut heap, 0, 0);
    assert_eq!(r.get(), Value::Integer(7));
}

#[test]
fn push_value_appends_a_slot() {
    let mut act = Activation { parent: None, args: Vec::new() };
    assert_eq!(act.len(), 0);
    act.push_value(Value::Integer(11));
    act.push_value(Value::Boolean(false));
    assert_eq!(act.len(), 2);
    assert_eq!(act.args[0], Value::Integer(11));
    assert_eq!(act.args[1], Value::Boolean(false));
}

#[test]
fn activations_survive_collection_through_parent_links() {
    let mut heap = Heap::new();
    let g = heap.global_activation();
    let v = Rooted::new(&mut heap, Value::Integer(3));
    let a1 = Activation::extend(&mut heap, &g, vec![v]);
    heap.collect_garbage();
    assert!(heap.live_activation(a1.get()));
    let act1 = heap.read_activation(a1.get());
    let r = act1.fetch(&mut heap, 0, 0);
    assert_eq!(r.get(), Value::Integer(3));
}

#[test]
fn with_extended_env_pops_on_exit() {
    let heap = Heap::new();
    let (mut heap, coords) = heap.with_extended_env(
        vec![String::from("u"), String::from("v")],
        |h: Heap| {
            let c = h.environment.lookup(&String::from("v"));
            (h, c)
        },
    );
    assert_eq!(coords, Some((0, 1)));
    // The scope is gone again afterwards.
    assert_eq!(heap.environment.lookup(&String::from("u")), None);
    assert_eq!(heap.environment.lookup(&String::from("v")), None);
    let _ = heap.allocate_cons();
}
