//! Scheme value implementation.
//!
//! A [`Value`] is either a leaf datum (the empty list, an integer, a
//! boolean, a character) or a tagged slot handle into the heap (a pair, a
//! string, a symbol, or a procedure). Copying a `Value` copies the tag and
//! the handle, never the heap object, so equality of handle-carrying
//! variants is pointer identity — the Scheme `eq?`, not `equal?`.

use vstd::prelude::*;

use crate::heap::{
    cons_ok, root_headroom, value_live, ActivationPtr, ConsPtr, GcThing, Heap, ProcedurePtr,
    RootedConsPtr, StringPtr, ToGcThing, Trace,
};

verus! {

/// `Value` represents a scheme value of any type.
///
/// Note that equality is object identity on the slot-handle-carrying
/// variants, not structural comparison.
#[derive(Clone, Copy, PartialEq, Eq, Structural, Debug)]
pub enum Value {
    /// The empty list: `()`.
    EmptyList,
    /// The scheme pair type is a pointer to a GC-managed cons cell.
    Pair(ConsPtr),
    /// The scheme string type is a pointer to a GC-managed string.
    String(StringPtr),
    /// Scheme symbols are also implemented as a pointer to a GC-managed
    /// string; the tag distinguishes them from strings.
    Symbol(StringPtr),
    /// The scheme procedure type is a pointer to a GC-managed procedure.
    Procedure(ProcedurePtr),
    /// Scheme integers are represented as 64 bit integers.
    Integer(i64),
    /// Scheme booleans are represented with `bool`.
    Boolean(bool),
    /// Scheme characters are `char`s.
    Character(char),
}

impl ToGcThing for Value {
    open spec fn spec_gc_thing(&self) -> Option<GcThing> {
        match *self {
            Value::Pair(p) => Some(GcThing::Cons(p)),
            Value::String(p) => Some(GcThing::String(p)),
            Value::Symbol(p) => Some(GcThing::String(p)),
            Value::Procedure(p) => Some(GcThing::Procedure(p)),
            _ => None,
        }
    }

    fn to_gc_thing(&self) -> (r: Option<GcThing>) {
        match *self {
            Value::Pair(p) => Some(GcThing::Cons(p)),
            Value::String(p) => Some(GcThing::String(p)),
            Value::Symbol(p) => Some(GcThing::String(p)),
            Value::Procedure(p) => Some(GcThing::Procedure(p)),
            _ => None,
        }
    }
}

impl Value {
    /// The outgoing GC references this value contributes to the object that
    /// holds it: the handle it carries, if it carries one.
    pub open spec fn spec_refs(self) -> Seq<GcThing> {
        match self.spec_gc_thing() {
            Some(t) => seq![t],
            None => Seq::empty(),
        }
    }
}

/// A cons cell is a pair of `car` and `cdr` values. A list is one or more
/// cons cells, daisy chained together via the `cdr`. A list is "proper" if
/// the last `cdr` is `Value::EmptyList`; otherwise it is "improper".
///
/// Cons cells live on the heap: allocate one with
/// [`crate::heap::Heap::allocate_cons`] and reach its fields through the
/// heap that owns it.
#[derive(Clone, Copy, PartialEq, Eq, Structural, Debug)]
pub struct Cons {
    /// The first field of the pair.
    pub car: Value,
    /// The second field of the pair.
    pub cdr: Value,
}

impl Cons {
    /// Get the car of this cons cell.
    pub fn car(&self) -> (r: Value)
        ensures
            r == self.spec_car(),
    {
        self.car
    }

    /// Get the cdr of this cons cell.
    pub fn cdr(&self) -> (r: Value)
        ensures
            r == self.spec_cdr(),
    {
        self.cdr
    }

    /// Set the car of this cons cell.
    pub fn set_car(&mut self, car: Value)
        ensures
            *final(self) == (Cons { car, cdr: old(self).spec_cdr() }),
    {
        self.car = car;
    }

    /// Set the cdr of this cons cell.
    pub fn set_cdr(&mut self, cdr: Value)
        ensures
            *final(self) == (Cons { car: old(self).spec_car(), cdr }),
    {
        self.cdr = cdr;
    }

    /// The car, for use in specifications.
    pub open spec fn spec_car(self) -> Value {
        self.car
    }

    /// The cdr, for use in specifications.
    pub open spec fn spec_cdr(self) -> Value {
        self.cdr
    }
}

impl Trace for Cons {
    open spec fn spec_refs(&self) -> Seq<GcThing> {
        self.car.spec_refs() + self.cdr.spec_refs()
    }

    open spec fn is_fresh(&self) -> bool {
        self.car == Value::EmptyList && self.cdr == Value::EmptyList
    }

    /// A fresh cons pair has both `car` and `cdr` initialized to
    /// `Value::EmptyList`.
    fn fresh_object() -> (r: Cons) {
        Cons { car: Value::EmptyList, cdr: Value::EmptyList }
    }

    fn trace(&self) -> (r: Vec<GcThing>) {
        let mut refs: Vec<GcThing> = Vec::new();
        if let Some(t) = self.car.to_gc_thing() {
            refs.push(t);
        }
        if let Some(t) = self.cdr.to_gc_thing() {
            refs.push(t);
        }
        proof {
            assert(refs@ =~= self.spec_refs());
        }
        refs
    }
}

/// A procedure captures its parameter-name list (itself a pair chain), its
/// body expression, the activation it closed over, and its arity.
#[derive(Clone, Copy, PartialEq, Eq, Structural, Debug)]
pub struct Procedure {
    /// The parameter-name list, a chain of pairs of symbols.
    pub params: Value,
    /// The body expression.
    pub body: Value,
    /// The enclosing activation captured at closure creation, if any.
    pub act: Option<ActivationPtr>,
    /// The number of parameters the procedure expects.
    pub arity: u32,
}

impl Trace for Procedure {
    open spec fn spec_refs(&self) -> Seq<GcThing> {
        self.params.spec_refs() + self.body.spec_refs() + (match self.act {
            Some(p) => seq![GcThing::Activation(p)],
            None => Seq::empty(),
        })
    }

    open spec fn is_fresh(&self) -> bool {
        &&& self.params == Value::EmptyList
        &&& self.body == Value::EmptyList
        &&& self.act is None
        &&& self.arity == 0
    }

    fn fresh_object() -> (r: Procedure) {
        Procedure { params: Value::EmptyList, body: Value::EmptyList, act: None, arity: 0 }
    }

    fn trace(&self) -> (r: Vec<GcThing>) {
        let mut refs: Vec<GcThing> = Vec::new();
        if let Some(t) = self.params.to_gc_thing() {
            refs.push(t);
        }
        if let Some(t) = self.body.to_gc_thing() {
            refs.push(t);
        }
        if let Some(p) = self.act {
            refs.push(GcThing::Activation(p));
        }
        proof {
            assert(refs@ =~= self.spec_refs());
        }
        refs
    }
}

/// The car of a value, when the value is a pair in the heap.
pub open spec fn value_car(h: Heap, v: Value) -> Option<Value> {
    match v {
        Value::Pair(p) => Some(h.cons_at(p).spec_car()),
        _ => None,
    }
}

/// The cdr of a value, when the value is a pair in the heap.
pub open spec fn value_cdr(h: Heap, v: Value) -> Option<Value> {
    match v {
        Value::Pair(p) => Some(h.cons_at(p).spec_cdr()),
        _ => None,
    }
}

/// Whether the cdr chain starting at `v` reaches a non-pair within
/// `fuel` steps. Every proper or improper finite list satisfies this for
/// a large enough fuel; only a cyclic pair chain satisfies it for none.
pub open spec fn chain_ends(h: Heap, v: Value, fuel: nat) -> bool
    decreases fuel,
{
    match v {
        Value::Pair(p) => fuel > 0 && chain_ends(h, h.cons_at(p).spec_cdr(), (fuel - 1) as nat),
        _ => true,
    }
}

/// The length of the proper list `v`, or an error if the chain ends in
/// anything but the empty list. Meaningful whenever `chain_ends` holds
/// of the fuel.
pub open spec fn list_length(h: Heap, v: Value, fuel: nat) -> Result<int, ()>
    decreases fuel,
{
    match v {
        Value::EmptyList => Ok(0),
        Value::Pair(p) => {
            if fuel == 0 {
                Err(())
            } else {
                match list_length(h, h.cons_at(p).spec_cdr(), (fuel - 1) as nat) {
                    Ok(n) => Ok(n + 1),
                    Err(e) => Err(e),
                }
            }
        },
        _ => Err(()),
    }
}

/// The length of a chain does not depend on which sufficient fuel is
/// used, and is bounded by the fuel.
pub proof fn lemma_list_length_fuel(h: Heap, v: Value, f1: nat, f2: nat)
    requires
        chain_ends(h, v, f1),
        chain_ends(h, v, f2),
    ensures
        list_length(h, v, f1) == list_length(h, v, f2),
        list_length(h, v, f1) matches Ok(n) ==> 0 <= n <= f1,
    decreases f1,
{
    match v {
        Value::Pair(p) => {
            lemma_list_length_fuel(h, h.cons_at(p).spec_cdr(), (f1 - 1) as nat, (f2 - 1) as nat);
        },
        _ => {},
    }
}

/// In a well-formed heap a live pair references only live objects.
pub proof fn lemma_live_cons_ok(h: Heap, p: ConsPtr)
    requires
        h.wf(),
        h.live(GcThing::Cons(p)),
    ensures
        cons_ok(h, h.cons_at(p)),
{
    let c = h.cons_at(p);
    let u = GcThing::Cons(p);
    match c.spec_car().spec_gc_thing() {
        Some(t) => {
            assert(c.spec_car().spec_refs() == seq![t]);
            assert(h.succs(u)[0] == t);
            assert(h.live(h.succs(u)[0]));
        },
        None => {},
    }
    match c.spec_cdr().spec_gc_thing() {
        Some(t) => {
            assert(c.spec_cdr().spec_refs() == seq![t]);
            let refs = h.succs(u);
            assert(refs[refs.len() - 1] == t);
            assert(h.live(h.succs(u)[refs.len() - 1]));
        },
        None => {},
    }
}

/// # `Value` constructors
impl Value {
    /// Create a new integer value.
    pub fn new_integer(i: i64) -> (r: Value)
        ensures
            r == Value::Integer(i),
    {
        Value::Integer(i)
    }

    /// Create a new boolean value.
    pub fn new_boolean(b: bool) -> (r: Value)
        ensures
            r == Value::Boolean(b),
    {
        Value::Boolean(b)
    }

    /// Create a new character value.
    pub fn new_character(c: char) -> (r: Value)
        ensures
            r == Value::Character(c),
    {
        Value::Character(c)
    }

    /// Create a new symbol value wrapping the given canonical string
    /// handle.
    pub fn new_symbol(str: StringPtr) -> (r: Value)
        ensures
            r == Value::Symbol(str),
    {
        Value::Symbol(str)
    }

    /// Create a new cons pair value with the given car and cdr. The
    /// handles the two values carry must be kept reachable by the caller
    /// across this allocation; the returned pair itself is unrooted, so
    /// the caller must root it before allocating again.
    pub fn new_pair(heap: &mut Heap, car: Value, cdr: Value) -> (r: Value)
        requires
            old(heap).wf(),
            old(heap).headroom(),
            match car.spec_gc_thing() {
                Some(u) => old(heap).live(u) && old(heap).reachable(u),
                None => true,
            },
            match cdr.spec_gc_thing() {
                Some(u) => old(heap).live(u) && old(heap).reachable(u),
                None => true,
            },
        ensures
            final(heap).wf(),
            r matches Value::Pair(p) && final(heap).live(GcThing::Cons(p)) && final(heap).cons_at(p) == (Cons { car, cdr }) && final(heap).root_count(GcThing::Cons(p)) == 0
                && !(old(heap).live(GcThing::Cons(p)) && old(heap).reachable(GcThing::Cons(p))),
            ({
                let gc = old(heap).allocations + 1 > old(heap).allocations_threshold;
                match r {
                    Value::Pair(t0) => {
                        let t = GcThing::Cons(t0);
                        &&& forall|u: GcThing|
                            u != t ==> (final(heap).live(u) <==> (old(heap).live(u) && (gc
                                ==> old(heap).reachable(u))))
                        &&& forall|q: ConsPtr|
                            old(heap).live(GcThing::Cons(q)) && (gc ==> old(heap).reachable(
                                GcThing::Cons(q),
                            )) && q != t0 ==> final(heap).cons_at(q) == old(heap).cons_at(q)
                        &&& forall|q: StringPtr|
                            old(heap).live(GcThing::String(q)) && (gc ==> old(heap).reachable(
                                GcThing::String(q),
                            )) ==> final(heap).string_at(q) == old(heap).string_at(q)
                        &&& forall|q: ActivationPtr|
                            old(heap).live(GcThing::Activation(q)) && (gc ==> old(
                                heap,
                            ).reachable(GcThing::Activation(q))) ==> final(heap).act_at(q)
                                == old(heap).act_at(q)
                        &&& final(heap).symbol_table == old(heap).symbol_table
                        &&& final(heap).locations == old(heap).locations
                        &&& final(heap).environment == old(heap).environment
                        &&& final(heap).global_activation == old(heap).global_activation
                    },
                    _ => false,
                }
            }),
    {
        let cons = heap.allocate_cons();
        let ghost mid = *heap;
        let p = cons.get();
        heap.set_car(p, car);
        heap.set_cdr(p, cdr);
        let ghost mid2 = *heap;
        heap.drop_root(&cons);
        proof {
            crate::heap::lemma_graph_eq(mid2, *heap);
            assert(heap.cons_at(p) == (Cons { car, cdr }));
            let t = GcThing::Cons(p);
            assert(heap.root_count(t) == 0) by {
                assert(mid.root_count(t) == 1);
                assert(mid2.root_count(t) == 1);
            }
            assert forall|u: GcThing|
                u != t implies (heap.live(u) <==> (mid.live(u))) by {}
        }
        Value::Pair(p)
    }

    /// Create a new string value with the given contents. The returned
    /// string is unrooted, so the caller must root it before allocating
    /// again.
    pub fn new_string(heap: &mut Heap, str: String) -> (r: Value)
        requires
            old(heap).wf(),
            old(heap).headroom(),
        ensures
            final(heap).wf(),
            r matches Value::String(p) && final(heap).live(GcThing::String(p)) && final(heap).string_at(p)@ == str@ && final(heap).root_count(GcThing::String(p)) == 0,
            final(heap).symbol_table == old(heap).symbol_table,
            final(heap).locations == old(heap).locations,
            final(heap).environment == old(heap).environment,
    {
        let value = heap.allocate_string();
        let p = value.get();
        proof {
            assert forall|k: int| 0 <= k < heap.symbol_table@.len() implies (
            #[trigger] heap.symbol_table@[k]).1 != p by {
                let u = GcThing::String(old(heap).symbol_table@[k].1);
                assert(old(heap).live(u));
                assert(old(heap).symbol_rooted(u));
                old(heap).lemma_root_reachable(u);
                assert(heap.symbol_table@[k] == old(heap).symbol_table@[k]);
            }
        }
        heap.set_string(p, str);
        let ghost mid2 = *heap;
        heap.drop_root(&value);
        proof {
            crate::heap::lemma_graph_eq(mid2, *heap);
        }
        Value::String(p)
    }
}

/// # `Value` methods
impl Value {
    /// Assuming this value is a cons pair, get its car value. Otherwise,
    /// return `None`.
    pub fn car(&self, heap: &Heap) -> (r: Option<Value>)
        requires
            heap.wf(),
            value_live(*heap, *self),
        ensures
            r == value_car(*heap, *self),
    {
        match *self {
            Value::Pair(cons) => Some(heap.car_of(cons)),
            _ => None,
        }
    }

    /// Assuming this value is a cons pair, get its cdr value. Otherwise,
    /// return `None`.
    pub fn cdr(&self, heap: &Heap) -> (r: Option<Value>)
        requires
            heap.wf(),
            value_live(*heap, *self),
        ensures
            r == value_cdr(*heap, *self),
    {
        match *self {
            Value::Pair(cons) => Some(heap.cdr_of(cons)),
            _ => None,
        }
    }

    /// Return true if this value is a pair, false otherwise.
    pub fn is_pair(&self) -> (r: bool)
        ensures
            r == (*self matches Value::Pair(_)),
    {
        match *self {
            Value::Pair(_) => true,
            _ => false,
        }
    }

    /// Return true if this value is an atom, false otherwise.
    pub fn is_atom(&self) -> (r: bool)
        ensures
            r == !(*self matches Value::Pair(_)),
    {
        !self.is_pair()
    }

    /// Convert this symbol value to a `StringPtr` to the symbol's string
    /// name, if it is a symbol.
    pub fn to_symbol(&self) -> (r: Option<StringPtr>)
        ensures
            r == (match *self {
                Value::Symbol(sym) => Some(sym),
                _ => None::<StringPtr>,
            }),
    {
        match *self {
            Value::Symbol(sym) => Some(sym),
            _ => None,
        }
    }

    /// Convert this pair value to a `ConsPtr` to the cons cell this pair
    /// is referring to, if it is a pair.
    pub fn to_pair(&self) -> (r: Option<ConsPtr>)
        ensures
            r == (match *self {
                Value::Pair(cons) => Some(cons),
                _ => None::<ConsPtr>,
            }),
    {
        match *self {
            Value::Pair(cons) => Some(cons),
            _ => None,
        }
    }

    /// Assuming that this value is a proper list, get the length of the
    /// list; an improper tail is an error. The cdr chain must end: a
    /// cyclic chain never yields a length at all.
    pub fn len(&self, heap: &Heap) -> (r: Result<u64, ()>)
        requires
            heap.wf(),
            value_live(*heap, *self),
            exists|f: nat| f <= u64::MAX && chain_ends(*heap, *self, f),
        ensures
            forall|f: nat|
                chain_ends(*heap, *self, f) ==> (match (r, list_length(*heap, *self, f)) {
                    (Ok(a), Ok(b)) => a == b,
                    (Err(_), Err(_)) => true,
                    _ => false,
                }),
    {
        let ghost fuel = choose|f: nat| f <= u64::MAX && chain_ends(*heap, *self, f);
        let r = self.len_fueled(heap, Ghost(fuel));
        proof {
            assert forall|f: nat| chain_ends(*heap, *self, f) implies (match (
            r,
            list_length(*heap, *self, f),
            ) {
                (Ok(a), Ok(b)) => a == b,
                (Err(_), Err(_)) => true,
                _ => false,
            }) by {
                lemma_list_length_fuel(*heap, *self, fuel, f);
            }
        }
        r
    }

    /// The worker behind [`Value::len`], walking the chain with an
    /// explicit fuel bound for termination.
    fn len_fueled(&self, heap: &Heap, Ghost(fuel): Ghost<nat>) -> (r: Result<u64, ()>)
        requires
            heap.wf(),
            value_live(*heap, *self),
            fuel <= u64::MAX,
            chain_ends(*heap, *self, fuel),
        ensures
            match (r, list_length(*heap, *self, fuel)) {
                (Ok(a), Ok(b)) => a == b,
                (Err(_), Err(_)) => true,
                _ => false,
            },
        decreases fuel,
    {
        match *self {
            Value::EmptyList => Ok(0),
            Value::Pair(p) => {
                proof {
                    lemma_live_cons_ok(*heap, p);
                }
                let cdr = heap.cdr_of(p);
                match cdr.len_fueled(heap, Ghost((fuel - 1) as nat)) {
                    Ok(n) => {
                        proof {
                            lemma_list_length_fuel(
                                *heap,
                                heap.cons_at(p).spec_cdr(),
                                (fuel - 1) as nat,
                                (fuel - 1) as nat,
                            );
                        }
                        Ok(n + 1)
                    },
                    Err(e) => Err(e),
                }
            },
            _ => Err(()),
        }
    }
}

/// Either a Scheme `Value`, or a `String` containing an error message.
pub type SchemeResult = Result<Value, String>;

/// The car/cdr compositions.
impl Cons {
    /// The cdr of this cell's cdr.
    pub fn cddr(&self, heap: &Heap) -> (r: SchemeResult)
        requires
            heap.wf(),
            cons_ok(*heap, *self),
        ensures
            ({
                match value_cdr(*heap, self.spec_cdr()) {
                    Some(v) => r == Ok::<Value, String>(v),
                    None => r is Err,
                }
            }),
    {
        match self.cdr.cdr(heap) {
            Some(v) => Ok(v),
            None => Err(String::from_str("bad cddr")),
        }
    }

    /// The cdr of this cell's cddr.
    pub fn cdddr(&self, heap: &Heap) -> (r: SchemeResult)
        requires
            heap.wf(),
            cons_ok(*heap, *self),
        ensures
            ({
                let v2 = value_cdr(*heap, self.spec_cdr());
                match v2 {
                    Some(v) => match value_cdr(*heap, v) {
                        Some(w) => r == Ok::<Value, String>(w),
                        None => r is Err,
                    },
                    None => r is Err,
                }
            }),
    {
        let cddr = match self.cddr(heap) {
            Ok(v) => v,
            Err(e) => {
                return Err(e);
            },
        };
        proof {
            match self.spec_cdr() {
                Value::Pair(q) => {
                    lemma_live_cons_ok(*heap, q);
                },
                _ => {},
            }
        }
        match cddr.cdr(heap) {
            Some(v) => Ok(v),
            None => Err(String::from_str("bad cdddr")),
        }
    }

    /// The car of this cell's cdr.
    pub fn cadr(&self, heap: &Heap) -> (r: SchemeResult)
        requires
            heap.wf(),
            cons_ok(*heap, *self),
        ensures
            ({
                match value_car(*heap, self.spec_cdr()) {
                    Some(v) => r == Ok::<Value, String>(v),
                    None => r is Err,
                }
            }),
    {
        match self.cdr.car(heap) {
            Some(v) => Ok(v),
            None => Err(String::from_str("bad cadr")),
        }
    }

    /// The car of this cell's cddr.
    pub fn caddr(&self, heap: &Heap) -> (r: SchemeResult)
        requires
            heap.wf(),
            cons_ok(*heap, *self),
        ensures
            ({
                let v2 = value_cdr(*heap, self.spec_cdr());
                match v2 {
                    Some(v) => match value_car(*heap, v) {
                        Some(w) => r == Ok::<Value, String>(w),
                        None => r is Err,
                    },
                    None => r is Err,
                }
            }),
    {
        let cddr = match self.cddr(heap) {
            Ok(v) => v,
            Err(e) => {
                return Err(e);
            },
        };
        proof {
            match self.spec_cdr() {
                Value::Pair(q) => {
                    lemma_live_cons_ok(*heap, q);
                },
                _ => {},
            }
        }
        match cddr.car(heap) {
            Some(v) => Ok(v),
            None => Err(String::from_str("bad caddr")),
        }
    }

    /// The car of this cell's cdddr.
    pub fn cadddr(&self, heap: &Heap) -> (r: SchemeResult)
        requires
            heap.wf(),
            cons_ok(*heap, *self),
        ensures
            ({
                let v2 = value_cdr(*heap, self.spec_cdr());
                match v2 {
                    Some(v) => match value_cdr(*heap, v) {
                        Some(w) => match value_car(*heap, w) {
                            Some(x) => r == Ok::<Value, String>(x),
                            None => r is Err,
                        },
                        None => r is Err,
                    },
                    None => r is Err,
                }
            }),
    {
        let cdddr = match self.cdddr(heap) {
            Ok(v) => v,
            Err(e) => {
                return Err(e);
            },
        };
        proof {
            match self.spec_cdr() {
                Value::Pair(q) => {
                    lemma_live_cons_ok(*heap, q);
                    match heap.cons_at(q).spec_cdr() {
                        Value::Pair(q2) => {
                            lemma_live_cons_ok(*heap, q2);
                        },
                        _ => {},
                    }
                },
                _ => {},
            }
        }
        match cdddr.car(heap) {
            Some(v) => Ok(v),
            None => Err(String::from_str("bad cadddr")),
        }
    }
}

/// Whether `v` is the proper list holding exactly the values `elems`.
pub open spec fn is_list_of(h: Heap, v: Value, elems: Seq<Value>) -> bool
    decreases elems.len(),
{
    if elems.len() == 0 {
        v == Value::EmptyList
    } else {
        match v {
            Value::Pair(p) => {
                &&& h.live(GcThing::Cons(p))
                &&& h.cons_at(p).spec_car() == elems[0]
                &&& is_list_of(h, h.cons_at(p).spec_cdr(), elems.drop_first())
            },
            _ => false,
        }
    }
}

/// A helper utility to create a cons list from the given values. The
/// handles the values carry must be kept reachable by the caller; the
/// returned list is unrooted, so the caller must root it before
/// allocating again.
pub fn list(heap: &mut Heap, values: &[Value]) -> (r: Value)
    requires
        old(heap).wf(),
        old(heap).alloc_margin(values@.len()),
        forall|k: int|
            0 <= k < values@.len() ==> match (#[trigger] values@[k]).spec_gc_thing() {
                Some(u) => old(heap).live(u) && old(heap).reachable(u),
                None => true,
            },
    ensures
        final(heap).wf(),
        is_list_of(*final(heap), r, values@),
{
    let n = values.len();
    // First reserve one rooted pair per element, so that no pair can be
    // collected while the later pairs are allocated.
    let mut cells: Vec<RootedConsPtr> = Vec::new();
    let mut k: usize = 0;
    while k < n
        invariant
            k <= n,
            n == values@.len(),
            heap.wf(),
            heap.alloc_margin((n - k) as nat),
            cells@.len() == k,
            forall|m: int|
                0 <= m < k ==> heap.live(GcThing::Cons((#[trigger] cells@[m]).ptr))
                    && heap.rooted(GcThing::Cons(cells@[m].ptr)),
            forall|m1: int, m2: int|
                0 <= m1 < m2 < k ==> (#[trigger] cells@[m1]).ptr != (#[trigger] cells@[m2]).ptr,
            forall|j: int|
                0 <= j < values@.len() ==> match (#[trigger] values@[j]).spec_gc_thing() {
                    Some(u) => heap.live(u) && heap.reachable(u),
                    None => true,
                },
        decreases n - k,
    {
        let ghost pre = *heap;
        proof {
            pre.lemma_margin_headroom((n - k) as nat);
        }
        let cell = heap.allocate_cons();
        proof {
            let t = GcThing::Cons(cell.ptr);
            Heap::lemma_margin_step(pre, *heap, t, (n - k) as nat);
            assert forall|m: int|
                0 <= m < k implies heap.live(GcThing::Cons((#[trigger] cells@[m]).ptr))
                && heap.rooted(GcThing::Cons(cells@[m].ptr)) && cells@[m].ptr != cell.ptr by {
                let u = GcThing::Cons(cells@[m].ptr);
                assert(pre.rooted(u));
                pre.lemma_root_reachable(u);
                assert(u != t);
                assert(heap.live(u));
                assert(heap.root_count(u) == pre.root_count(u));
            }
            assert forall|j: int|
                0 <= j < values@.len() implies match (#[trigger] values@[j]).spec_gc_thing() {
                Some(u) => heap.live(u) && heap.reachable(u),
                None => true,
            } by {
                match values@[j].spec_gc_thing() {
                    Some(u) => {
                        assert(pre.live(u) && pre.reachable(u));
                        assert(heap.reachable(u));
                        assert(u != t);
                        assert(heap.live(u));
                    },
                    None => {},
                }
            }
        }
        cells.push(cell);
        k += 1;
    }
    // Now link the pairs in place; no allocation happens here, so
    // nothing can move or be reclaimed while we write.
    let mut k: usize = 0;
    while k < n
        invariant
            k <= n,
            heap.wf(),
            n == values@.len(),
            cells@.len() == n,
            forall|m: int|
                0 <= m < n ==> heap.live(GcThing::Cons((#[trigger] cells@[m]).ptr))
                    && heap.rooted(GcThing::Cons(cells@[m].ptr)),
            forall|m1: int, m2: int|
                0 <= m1 < m2 < n ==> (#[trigger] cells@[m1]).ptr != (#[trigger] cells@[m2]).ptr,
            forall|j: int|
                0 <= j < values@.len() ==> match (#[trigger] values@[j]).spec_gc_thing() {
                    Some(u) => heap.live(u),
                    None => true,
                },
            forall|m: int|
                0 <= m < k ==> heap.cons_at((#[trigger] cells@[m]).ptr) == (Cons {
                    car: values@[m],
                    cdr: if m + 1 < n {
                        Value::Pair(cells@[m + 1].ptr)
                    } else {
                        Value::EmptyList
                    },
                }),
        decreases n - k,
    {
        let ghost pre = *heap;
        let p = cells[k].get();
        heap.set_car(p, values[k]);
        let cdr = if k + 1 < n {
            Value::Pair(cells[k + 1].get())
        } else {
            Value::EmptyList
        };
        heap.set_cdr(p, cdr);
        proof {
            assert forall|m: int|
                0 <= m < k implies heap.cons_at((#[trigger] cells@[m]).ptr) == (Cons {
                car: values@[m],
                cdr: if m + 1 < n {
                    Value::Pair(cells@[m + 1].ptr)
                } else {
                    Value::EmptyList
                },
            }) by {
                assert(cells@[m].ptr != p);
            }
        }
        k += 1;
    }
    let ghost linked = *heap;
    // The chain is in place: give the reservation roots back.
    let mut k: usize = 0;
    while k < n
        invariant
            k <= n,
            heap.wf(),
            n == values@.len(),
            cells@.len() == n,
            heap.cons_cells == linked.cons_cells,
            heap.strings == linked.strings,
            heap.activations == linked.activations,
            heap.procedures == linked.procedures,
            heap.symbol_table == linked.symbol_table,
            heap.locations == linked.locations,
            heap.environment == linked.environment,
            heap.global_activation == linked.global_activation,
        decreases n - k,
    {
        heap.drop_root(&cells[k]);
        k += 1;
    }
    proof {
        crate::heap::lemma_graph_eq(linked, *heap);
        lemma_chain_is_list(linked, *heap, cells@, values@, 0);
        assert(values@.skip(0) =~= values@);
    }
    if n > 0 {
        Value::Pair(cells[0].get())
    } else {
        Value::EmptyList
    }
}

/// A correctly linked chain of pairs is the proper list of its values.
proof fn lemma_chain_is_list(
    linked: Heap,
    h: Heap,
    cells: Seq<RootedConsPtr>,
    values: Seq<Value>,
    k: int,
)
    requires
        0 <= k <= values.len(),
        cells.len() == values.len(),
        forall|t: GcThing| h.live(t) == linked.live(t),
        forall|p: ConsPtr|
            linked.live(GcThing::Cons(p)) ==> h.cons_at(p) == linked.cons_at(p),
        forall|m: int|
            0 <= m < values.len() ==> linked.live(GcThing::Cons((#[trigger] cells[m]).ptr)),
        forall|m: int|
            0 <= m < values.len() ==> linked.cons_at((#[trigger] cells[m]).ptr) == (Cons {
                car: values[m],
                cdr: if m + 1 < values.len() {
                    Value::Pair(cells[m + 1].ptr)
                } else {
                    Value::EmptyList
                },
            }),
    ensures
        is_list_of(
            h,
            if k < values.len() {
                Value::Pair(cells[k].ptr)
            } else {
                Value::EmptyList
            },
            values.skip(k),
        ),
    decreases values.len() - k,
{
    if k < values.len() {
        lemma_chain_is_list(linked, h, cells, values, k + 1);
        assert(values.skip(k).drop_first() =~= values.skip(k + 1));
        assert(values.skip(k)[0] == values[k]);
        assert(h.cons_at(cells[k].ptr) == linked.cons_at(cells[k].ptr));
    } else {
        assert(values.skip(k) =~= Seq::<Value>::empty());
    }
}

} // verus!
