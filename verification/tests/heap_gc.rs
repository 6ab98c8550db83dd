use oxischeme::heap::{Arena, ArenaSet, GcThing, Heap, Location, Rooted};
use oxischeme::value::{Cons, Value};

fn small_heap() -> Heap {
    Heap::with_arenas(
        ArenaSet::new(4),
        ArenaSet::new(4),
        ArenaSet::new(4),
        ArenaSet::new(4),
    )
}

/// Trigger a collection by building allocation pressure with unrooted
/// strings, so that no cons slot is handed out again afterwards.
fn force_gc_with_strings(heap: &mut Heap) {
    let before = heap.pressure_threshold();
    for _ in 0..(before + 2) {
        let s = heap.allocate_string();
        heap.drop_root(&s);
        if heap.pressure() == 0 {
            return;
        }
    }
    panic!("allocation pressure never triggered a collection");
}

#[test]
fn fresh_pair_has_empty_fields() {
    let mut heap = Heap::new();
    let p = heap.allocate_cons();
    let c = heap.get_cons(p.get());
    assert_eq!(c.car(), Value::EmptyList);
    assert_eq!(c.cdr(), Value::EmptyList);
}

#[test]
fn collection_reclaims_unreachable_pair() {
    let mut heap = small_heap();
    let p = heap.allocate_cons();
    let ptr = p.get();
    heap.drop_root(&p);
    assert!(heap.live_cons(ptr));
    force_gc_with_strings(&mut heap);
    assert!(!heap.live_cons(ptr));
}

#[test]
fn rooting_preserves_across_gc() {
    let mut heap = small_heap();
    let p = heap.allocate_cons();
    heap.set_car(p.get(), Value::Integer(7));
    heap.set_cdr(p.get(), Value::Boolean(true));
    force_gc_with_strings(&mut heap);
    assert!(heap.live_cons(p.get()));
    let c = heap.get_cons(p.get());
    assert_eq!(c.car(), Value::Integer(7));
    assert_eq!(c.cdr(), Value::Boolean(true));
    heap.drop_root(&p);
}

#[test]
fn cyclic_pair_survives_and_is_reclaimed() {
    let mut heap = Heap::new();
    let p = heap.allocate_cons();
    let ptr = p.get();
    heap.set_car(ptr, Value::Pair(ptr));
    heap.collect_garbage();
    assert!(heap.live_cons(ptr));
    assert_eq!(heap.get_cons(ptr).car(), Value::Pair(ptr));
    heap.drop_root(&p);
    heap.collect_garbage();
    assert!(!heap.live_cons(ptr));
}

#[test]
fn arena_growth_and_shrink() {
    let mut heap = small_heap();
    let mut pairs = Vec::new();
    for _ in 0..10 {
        pairs.push(heap.allocate_cons());
    }
    assert_eq!(heap.cons_arena_count(), 3);
    for k in 4..8 {
        let r: Rooted<_> = pairs[k];
        heap.drop_root(&r);
    }
    heap.collect_garbage();
    assert_eq!(heap.cons_arena_count(), 2);
    assert!(heap.live_cons(pairs[0].get()));
    assert!(heap.live_cons(pairs[9].get()));
    assert!(!heap.live_cons(pairs[5].get()));
}

#[test]
fn pressure_threshold_triggers_one_collection() {
    let mut heap = Heap::new();
    let threshold = heap.pressure_threshold();
    // The default activation capacity gives half an arena of headroom.
    assert_eq!(threshold, 512);
    for _ in 0..threshold {
        let s = heap.allocate_string();
        heap.drop_root(&s);
    }
    assert_eq!(heap.pressure(), threshold);
    // The next allocation exceeds the threshold: exactly one collection
    // runs, resetting the counter and recomputing the threshold from the
    // arenas now reserved (one string arena, one activation arena).
    let s = heap.allocate_string();
    heap.drop_root(&s);
    assert_eq!(heap.pressure(), 0);
    assert_eq!(heap.pressure_threshold(), 1024);
}

#[test]
fn root_table_counts_registrations() {
    let mut heap = Heap::new();
    let p = heap.allocate_cons();
    let ptr = p.get();
    // Root the same pair a second time along an overlapping scope.
    let q = Rooted::new(&mut heap, ptr);
    heap.drop_root(&p);
    heap.collect_garbage();
    assert!(heap.live_cons(ptr));
    heap.drop_root(&q);
    heap.collect_garbage();
    assert!(!heap.live_cons(ptr));
}

#[test]
fn emplace_moves_the_registration() {
    let mut heap = Heap::new();
    let a = heap.allocate_cons();
    let b = heap.allocate_cons();
    let a_ptr = a.get();
    let b_ptr = b.get();
    heap.drop_root(&b);
    let mut r = a;
    // Reseat the handle: `a` loses its registration, `b` gains one.
    r.emplace(&mut heap, b_ptr);
    heap.collect_garbage();
    assert!(!heap.live_cons(a_ptr));
    assert!(heap.live_cons(b_ptr));
    heap.drop_root(&r);
}

#[test]
fn enlocate_pins_and_locate_finds() {
    let mut heap = Heap::new();
    let p = heap.allocate_cons();
    let keep = Rooted::new(&mut heap, p.get());
    let loc = Location { file: String::from("prog.scm"), line: 3, column: 9 };
    heap.enlocate(loc, p);
    // The registration itself keeps the pair alive, with no explicit
    // root left.
    heap.drop_root(&keep);
    heap.collect_garbage();
    assert!(heap.live_cons(keep.get()));
    let found = heap.locate(&keep);
    assert_eq!(found.file, String::from("prog.scm"));
    assert_eq!(found.line, 3);
    assert_eq!(found.column, 9);
}

#[test]
fn locate_unregistered_pair_is_unknown() {
    let mut heap = Heap::new();
    let p = heap.allocate_cons();
    let loc = heap.locate(&p);
    assert_eq!(loc.file, String::new());
    assert_eq!(loc.line, 0);
    assert_eq!(loc.column, 0);
}

#[test]
fn enlocate_overwrites_earlier_location() {
    let mut heap = Heap::new();
    let p = heap.allocate_cons();
    let keep = Rooted::new(&mut heap, p.get());
    let also = Rooted::new(&mut heap, p.get());
    heap.enlocate(Location { file: String::from("a.scm"), line: 1, column: 1 }, p);
    heap.enlocate(Location { file: String::from("b.scm"), line: 2, column: 2 }, also);
    let found = heap.locate(&keep);
    assert_eq!(found.file, String::from("b.scm"));
    assert_eq!(found.line, 2);
    heap.drop_root(&keep);
}

#[test]
fn arena_basics() {
    let mut arena: Arena<Cons> = Arena::new(2);
    assert_eq!(arena.capacity(), 2);
    assert!(arena.is_empty());
    assert!(!arena.is_full());
    let a = arena.allocate();
    let b = arena.allocate();
    assert!(arena.is_full());
    assert!(!arena.is_empty());
    assert_ne!(a.index, b.index);
    // Nothing is marked, so a sweep reclaims both slots.
    arena.sweep();
    assert!(arena.is_empty());
}

#[test]
fn gc_thing_constructors_tag_handles() {
    let mut heap = Heap::new();
    let p = heap.allocate_cons();
    let s = heap.allocate_string();
    assert_eq!(GcThing::from_cons_ptr(p.get()), GcThing::Cons(p.get()));
    assert_eq!(GcThing::from_string_ptr(s.get()), GcThing::String(s.get()));
    assert_ne!(GcThing::from_cons_ptr(p.get()), GcThing::from_string_ptr(s.get()));
    heap.drop_root(&p);
    heap.drop_root(&s);
}

#[test]
fn arena_set_grows_only_when_full() {
    let mut set: ArenaSet<Cons> = ArenaSet::new(4);
    let mut handles = Vec::new();
    for _ in 0..10 {
        handles.push(set.allocate());
    }
    // Ten allocations at capacity four reserve exactly three arenas: a
    // new arena appears only once every existing one is full.
    assert_eq!(set.arenas.len(), 3);
    for k in 0..4 {
        assert_eq!(handles[k].arena, handles[0].arena);
    }
    for k in 4..8 {
        assert_eq!(handles[k].arena, handles[4].arena);
        assert_ne!(handles[k].arena, handles[0].arena);
    }
    assert_eq!(handles[8].arena, handles[9].arena);
}
