//! The Scheme environment binding symbols to values.
//!
//! This is split into two pieces:
//!
//! 1. The [`Environment`] associates symbols with a concrete location. This
//!    is used during syntactic analysis and yields `(frame, slot)`
//!    coordinates.
//!
//! 2. [`Activation`]s are those concrete locations at runtime, and contain
//!    the values passed in at function invocation. After syntactic
//!    analysis we only deal with activations, and we no longer need the
//!    symbols or the `Environment`.

use vstd::prelude::*;

use vstd::pervasive::unreached;

use crate::heap::{
    activation_ok, heap_eq_but_roots, heap_with_extra_root, lemma_values_refs_mem, mutate_rel,
    value_live, ActivationPtr, ConsPtr, GcThing, Heap, Rooted, RootedActivationPtr, RootedValue,
    StringPtr, ToGcThing, Trace,
};
use crate::value::Value;

verus! {

/// The outgoing GC references of a sequence of values: the handles they
/// carry, in order, with the leaves dropped.
pub open spec fn values_refs(s: Seq<Value>) -> Seq<GcThing>
    decreases s.len(),
{
    if s.len() == 0 {
        Seq::empty()
    } else {
        s.first().spec_refs() + values_refs(s.drop_first())
    }
}

/// An `Activation` represents the values extending the lexical environment
/// on each function invocation: an ordered list of argument and local
/// value slots, plus a link to the parent activation, if any.
#[derive(Clone, Debug)]
pub struct Activation {
    /// The parent activation, if this is not the global activation.
    pub parent: Option<ActivationPtr>,
    /// The argument and local values, in slot order.
    pub args: Vec<Value>,
}

impl Activation {
    /// Append a new value slot to this activation.
    pub fn push_value(&mut self, val: Value)
        requires
            old(self).args@.len() < u32::MAX,
        ensures
            final(self).parent == old(self).parent,
            final(self).args@ == old(self).args@.push(val),
    {
        self.args.push(val);
    }

    /// The number of value slots of this activation.
    pub fn len(&self) -> (r: u32)
        requires
            self.args@.len() <= u32::MAX,
        ensures
            r == self.args@.len(),
    {
        self.args.len() as u32
    }
}

impl Trace for Activation {
    open spec fn spec_refs(&self) -> Seq<GcThing> {
        values_refs(self.args@) + (match self.parent {
            Some(p) => seq![GcThing::Activation(p)],
            None => Seq::empty(),
        })
    }

    open spec fn is_fresh(&self) -> bool {
        self.parent is None && self.args@.len() == 0
    }

    fn fresh_object() -> (r: Activation) {
        Activation { parent: None, args: Vec::new() }
    }

    fn trace(&self) -> (r: Vec<GcThing>) {
        let mut refs: Vec<GcThing> = Vec::new();
        let n = self.args.len();
        let mut k: usize = 0;
        while k < n
            invariant
                k <= n,
                n == self.args@.len(),
                refs@ == values_refs(self.args@.take(k as int)),
            decreases n - k,
        {
            proof {
                lemma_values_refs_take_step(self.args@, k as int);
            }
            if let Some(t) = self.args[k].to_gc_thing() {
                refs.push(t);
            }
            k += 1;
        }
        proof {
            assert(self.args@.take(n as int) =~= self.args@);
        }
        if let Some(p) = self.parent {
            refs.push(GcThing::Activation(p));
        }
        proof {
            assert(refs@ =~= self.spec_refs());
        }
        refs
    }
}

/// The position of the first occurrence of `n` in the frame `f`, or -1 if
/// the frame does not bind `n`.
pub open spec fn frame_find(f: Seq<Seq<char>>, n: Seq<char>) -> int
    decreases f.len(),
{
    if f.len() == 0 {
        -1
    } else if f.first() == n {
        0
    } else {
        let r = frame_find(f.drop_first(), n);
        if r == -1 {
            -1
        } else {
            r + 1
        }
    }
}

/// What `frame_find` means: it is the first position binding `n`, or -1
/// when no position does.
pub proof fn lemma_frame_find(f: Seq<Seq<char>>, n: Seq<char>)
    ensures
        -1 <= frame_find(f, n) < f.len(),
        frame_find(f, n) >= 0 ==> f[frame_find(f, n)] == n,
        forall|j: int| 0 <= j < frame_find(f, n) ==> f[j] != n,
        frame_find(f, n) == -1 ==> forall|j: int| 0 <= j < f.len() ==> f[j] != n,
    decreases f.len(),
{
    if f.len() > 0 {
        lemma_frame_find(f.drop_first(), n);
        let r = frame_find(f.drop_first(), n);
        assert(forall|j: int| 0 <= j < f.drop_first().len() ==> f.drop_first()[j] == f[j + 1]);
        if f.first() != n {
            if r >= 0 {
                assert(f[r + 1] == f.drop_first()[r]);
                assert forall|j: int| 0 <= j < frame_find(f, n) implies f[j] != n by {
                    if j > 0 {
                        assert(f.drop_first()[j - 1] != n);
                    }
                }
            } else {
                assert forall|j: int| 0 <= j < f.len() implies f[j] != n by {
                    if j > 0 {
                        assert(f.drop_first()[j - 1] != n);
                    }
                }
            }
        }
    }
}

/// The coordinates that looking `n` up in the frame stack `fs` yields: the
/// number of frames between the top of the stack and the binding frame,
/// and the bound slot inside that frame.
pub open spec fn env_lookup(fs: Seq<Seq<Seq<char>>>, n: Seq<char>) -> Option<(int, int)>
    decreases fs.len(),
{
    if fs.len() == 0 {
        None
    } else {
        let j = frame_find(fs.last(), n);
        if j >= 0 {
            Some((0, j))
        } else {
            match env_lookup(fs.drop_last(), n) {
                Some(p) => Some((p.0 + 1, p.1)),
                None => None,
            }
        }
    }
}

/// The frame that `Environment::extend` builds from `names`: each name is
/// defined in order, and a name already present in the frame is not added
/// again.
pub open spec fn extend_frame(ns: Seq<Seq<char>>) -> Seq<Seq<char>>
    decreases ns.len(),
{
    if ns.len() == 0 {
        Seq::empty()
    } else {
        let f = extend_frame(ns.drop_last());
        if frame_find(f, ns.last()) >= 0 {
            f
        } else {
            f.push(ns.last())
        }
    }
}

proof fn lemma_extend_frame_wf(ns: Seq<Seq<char>>)
    ensures
        extend_frame(ns).no_duplicates(),
        extend_frame(ns).len() <= ns.len(),
        forall|j: int|
            0 <= j < extend_frame(ns).len() ==> ns.contains(#[trigger] extend_frame(ns)[j]),
    decreases ns.len(),
{
    if ns.len() > 0 {
        lemma_extend_frame_wf(ns.drop_last());
        let f = extend_frame(ns.drop_last());
        lemma_frame_find(f, ns.last());
        assert forall|j: int|
            0 <= j < extend_frame(ns).len() implies ns.contains(
            #[trigger] extend_frame(ns)[j],
        ) by {
            if j < f.len() {
                assert(ns.drop_last().contains(f[j]));
                let m = choose|m: int| 0 <= m < ns.drop_last().len() && ns.drop_last()[m] == f[j];
                assert(ns[m] == f[j]);
            } else {
                assert(extend_frame(ns)[j] == ns.last());
                assert(ns[ns.len() - 1] == ns.last());
            }
        }
        if frame_find(f, ns.last()) < 0 {
            assert forall|j: int| 0 <= j < f.len() implies f[j] != ns.last() by {}
            assert(extend_frame(ns).no_duplicates());
        }
    }
}

/// The static environment: a non-empty stack of frames, each an ordered
/// list of distinct names whose positions are the runtime slot indices.
/// The bottom frame is the global scope.
#[derive(Debug)]
pub struct Environment {
    /// The stack of frames; the last entry is the youngest scope.
    pub bindings: Vec<Vec<String>>,
}

impl Environment {
    /// The frame stack as a specification value: a stack of lists of
    /// names.
    pub open spec fn frames(&self) -> Seq<Seq<Seq<char>>> {
        self.bindings.deep_view()
    }

    /// Well-formedness: the global frame is always present, every frame
    /// binds each name at most once, and frame and stack sizes fit the
    /// `u32` coordinate space.
    pub open spec fn wf(&self) -> bool {
        &&& 1 <= self.frames().len() <= u32::MAX
        &&& forall|k: int|
            0 <= k < self.frames().len() ==> (#[trigger] self.frames()[k]).no_duplicates()
                && self.frames()[k].len() <= u32::MAX
    }

    /// Create an environment holding only the empty global scope.
    pub fn new() -> (r: Environment)
        ensures
            r.wf(),
            r.frames().len() == 1,
            r.frames()[0] == Seq::<Seq<char>>::empty(),
    {
        let mut bindings: Vec<Vec<String>> = Vec::new();
        bindings.push(Vec::new());
        let r = Environment { bindings };
        proof {
            assert(r.frames()[0] =~= Seq::<Seq<char>>::empty());
        }
        r
    }

    /// The position at which the youngest frame binds `name`, if any.
    fn find_youngest(&self, name: &String) -> (r: Option<usize>)
        requires
            self.wf(),
        ensures
            ({
                let f = self.frames().last();
                let j = frame_find(f, name@);
                match r {
                    Some(u) => j == u,
                    None => j == -1,
                }
            }),
    {
        let k = self.bindings.len() - 1;
        let frame = &self.bindings[k];
        let ghost f = self.frames().last();
        proof {
            assert(f =~= frame.deep_view());
            lemma_frame_find(f, name@);
        }
        let n = frame.len();
        let mut j: usize = 0;
        while j < n
            invariant
                j <= n,
                n == f.len(),
                f == frame.deep_view(),
                f == self.frames().last(),
                forall|m: int| 0 <= m < j ==> f[m] != name@,
            decreases n - j,
        {
            if frame[j].eq(name) {
                proof {
                    assert(frame@[j as int]@ == name@);
                    assert(f[j as int] == frame@[j as int].deep_view());
                    assert(f[j as int] == name@);
                    lemma_frame_find(f, name@);
                    assert(frame_find(f, name@) >= 0);
                    if frame_find(f, name@) < j {
                        assert(f[frame_find(f, name@)] == name@);
                    }
                    if frame_find(f, name@) > j {
                        assert(f[j as int] != name@);
                    }
                    assert(frame_find(f, name@) == j);
                }
                return Some(j);
            }
            proof {
                assert(frame@[j as int]@ != name@);
                assert(f[j as int] == frame@[j as int].deep_view());
            }
            j += 1;
        }
        proof {
            lemma_frame_find(f, name@);
            if frame_find(f, name@) >= 0 {
                assert(f[frame_find(f, name@)] == name@);
            }
        }
        None
    }

    /// Bind `name` in the youngest frame and return its `(0, slot)`
    /// coordinates. If the frame already binds the name, the existing
    /// coordinates are returned and nothing changes.
    pub fn define(&mut self, name: String) -> (r: (u32, u32))
        requires
            old(self).wf(),
            old(self).frames().last().len() < u32::MAX,
        ensures
            final(self).wf(),
            final(self).frames().len() == old(self).frames().len(),
            r.0 == 0,
            ({
                let f = old(self).frames().last();
                let j = frame_find(f, name@);
                if j >= 0 {
                    &&& *final(self) == *old(self)
                    &&& r.1 == j
                } else {
                    &&& final(self).frames() == old(self).frames().update(
                        old(self).frames().len() - 1,
                        f.push(name@),
                    )
                    &&& r.1 == f.len()
                }
            }),
    {
        let ghost f = old(self).frames().last();
        proof {
            lemma_frame_find(f, name@);
        }
        if let Some(j) = self.find_youngest(&name) {
            return (0, j as u32);
        }
        let k = self.bindings.len() - 1;
        let mut frame = self.bindings.remove(k);
        let n = frame.len();
        frame.push(name);
        self.bindings.insert(k, frame);
        proof {
            assert(self.frames()[k as int] =~= f.push(name@));
            assert(self.frames() =~= old(self).frames().update(k as int, f.push(name@)));
            assert(self.frames().last() == f.push(name@));
            assert forall|m: int|
                0 <= m < self.frames().len() implies (
            #[trigger] self.frames()[m]).no_duplicates() && self.frames()[m].len()
                <= u32::MAX by {
                if m == k {
                    assert(forall|j: int| 0 <= j < f.len() ==> f[j] != name@);
                    assert(f.push(name@).no_duplicates());
                } else {
                    assert(self.frames()[m] == old(self).frames()[m]);
                }
            }
        }
        (0, n as u32)
    }

    /// Push a fresh scope binding the given names in order.
    pub fn extend(&mut self, names: Vec<String>)
        requires
            old(self).wf(),
            old(self).frames().len() < u32::MAX,
            names@.len() < u32::MAX,
        ensures
            final(self).wf(),
            final(self).frames() == old(self).frames().push(extend_frame(names.deep_view())),
    {
        self.bindings.push(Vec::new());
        proof {
            assert(self.frames() =~~= old(self).frames().push(Seq::<Seq<char>>::empty()));
            assert(extend_frame(names.deep_view().take(0)) =~= Seq::<Seq<char>>::empty());
            lemma_extend_frame_wf(names.deep_view());
        }
        let n = names.len();
        let mut i: usize = 0;
        while i < n
            invariant
                i <= n,
                n == names@.len(),
                n < u32::MAX,
                self.wf(),
                self.frames().len() == old(self).frames().len() + 1,
                self.frames() =~= old(self).frames().push(
                    extend_frame(names.deep_view().take(i as int)),
                ),
                self.frames().last().len() <= i,
            decreases n - i,
        {
            let ghost fs_pre = self.frames();
            let ghost f = self.frames().last();
            let name = names[i].clone();
            proof {
                assert(name@ == names.deep_view()[i as int]);
                assert(names.deep_view().take(i as int + 1).drop_last() =~= names.deep_view()
                    .take(i as int));
                assert(names.deep_view().take(i as int + 1).last() == names.deep_view()[i as int]);
            }
            let _ = self.define(name);
            proof {
                let j = frame_find(f, name@);
                if j >= 0 {
                    assert(self.frames() == fs_pre);
                    assert(extend_frame(names.deep_view().take(i as int + 1)) == f);
                } else {
                    assert(extend_frame(names.deep_view().take(i as int + 1)) == f.push(name@));
                    assert(self.frames() =~= old(self).frames().push(f.push(name@)));
                }
            }
            i += 1;
        }
        proof {
            assert(names.deep_view().take(n as int) =~= names.deep_view());
        }
    }

    /// Remove the youngest scope. The global scope is never popped: the
    /// resolver only pops scopes it pushed itself.
    pub fn pop(&mut self)
        requires
            old(self).wf(),
            old(self).frames().len() > 1,
        ensures
            final(self).wf(),
            final(self).frames() == old(self).frames().drop_last(),
    {
        self.bindings.pop();
        proof {
            assert(self.frames() =~= old(self).frames().drop_last());
        }
    }

    /// Look `name` up, scanning the frames from the youngest to the
    /// global one. Returns `(i, j)` where `i` is the number of frames
    /// between the youngest frame and the binding frame and `j` is the
    /// bound slot, or `None` if no frame binds `name`.
    pub fn lookup(&self, name: &String) -> (r: Option<(u32, u32)>)
        requires
            self.wf(),
        ensures
            ({
                let l = env_lookup(self.frames(), name@);
                match r {
                    Some(p) => l == Some((p.0 as int, p.1 as int)),
                    None => l is None,
                }
            }),
    {
        let depth = self.bindings.len();
        let mut i: usize = 0;
        while i < depth
            invariant
                i <= depth,
                depth == self.frames().len(),
                self.wf(),
                forall|d: int|
                    0 <= d < i ==> frame_find(
                        #[trigger] self.frames()[self.frames().len() - 1 - d],
                        name@,
                    ) == -1,
            decreases depth - i,
        {
            let k = depth - 1 - i;
            let frame = &self.bindings[k];
            let ghost f = self.frames()[k as int];
            proof {
                assert(f =~= frame.deep_view());
                lemma_frame_find(f, name@);
            }
            let n = frame.len();
            let mut j: usize = 0;
            while j < n
                invariant
                    j <= n,
                    n == f.len(),
                    f == frame.deep_view(),
                    self.wf(),
                    i < depth,
                    depth == self.frames().len(),
                    k == self.frames().len() - 1 - i,
                    0 <= k < self.frames().len(),
                    f == self.frames()[k as int],
                    forall|m: int| 0 <= m < j ==> f[m] != name@,
                    forall|d: int|
                        0 <= d < i ==> frame_find(
                            #[trigger] self.frames()[self.frames().len() - 1 - d],
                            name@,
                        ) == -1,
                decreases n - j,
            {
                if frame[j].eq(name) {
                    proof {
                        assert(frame@[j as int]@ == name@);
                        assert(f[j as int] == frame@[j as int].deep_view());
                        assert(f[j as int] == name@);
                        lemma_frame_find(f, name@);
                        if frame_find(f, name@) < j {
                            assert(f[frame_find(f, name@)] == name@);
                        }
                        if frame_find(f, name@) > j {
                            assert(f[j as int] != name@);
                        }
                        assert(frame_find(f, name@) == j);
                        lemma_env_lookup_at(self.frames(), name@, i as int);
                    }
                    return Some((i as u32, j as u32));
                }
                proof {
                    assert(frame@[j as int]@ != name@);
                    assert(f[j as int] == frame@[j as int].deep_view());
                }
                j += 1;
            }
            proof {
                lemma_frame_find(f, name@);
                if frame_find(f, name@) >= 0 {
                    assert(f[frame_find(f, name@)] == name@);
                }
                assert(frame_find(f, name@) == -1);
                assert(frame_find(self.frames()[self.frames().len() - 1 - i as int], name@)
                    == -1);
            }
            i += 1;
        }
        proof {
            lemma_env_lookup_none(self.frames(), name@);
        }
        None
    }
}

/// If every frame within `i` of the top misses `n` and the frame `i` below
/// the top binds it at `j`, the lookup yields `(i, j)`.
proof fn lemma_env_lookup_at(fs: Seq<Seq<Seq<char>>>, n: Seq<char>, i: int)
    requires
        0 <= i < fs.len(),
        forall|d: int| 0 <= d < i ==> frame_find(#[trigger] fs[fs.len() - 1 - d], n) == -1,
        frame_find(fs[fs.len() - 1 - i], n) >= 0,
    ensures
        env_lookup(fs, n) == Some((i, frame_find(fs[fs.len() - 1 - i], n))),
    decreases i,
{
    if i == 0 {
        assert(fs.last() == fs[fs.len() - 1]);
    } else {
        assert(frame_find(fs.last(), n) == -1) by {
            assert(fs[fs.len() - 1 - 0] == fs.last());
        }
        assert forall|d: int|
            0 <= d < i - 1 implies frame_find(
            #[trigger] fs.drop_last()[fs.drop_last().len() - 1 - d],
            n,
        ) == -1 by {
            assert(fs.drop_last()[fs.drop_last().len() - 1 - d] == fs[fs.len() - 1 - (d + 1)]);
        }
        assert(fs.drop_last()[fs.drop_last().len() - 1 - (i - 1)] == fs[fs.len() - 1 - i]);
        lemma_env_lookup_at(fs.drop_last(), n, i - 1);
    }
}

/// If every frame misses `n`, the lookup fails.
proof fn lemma_env_lookup_none(fs: Seq<Seq<Seq<char>>>, n: Seq<char>)
    requires
        forall|d: int| 0 <= d < fs.len() ==> frame_find(#[trigger] fs[fs.len() - 1 - d], n) == -1,
    ensures
        env_lookup(fs, n) is None,
    decreases fs.len(),
{
    if fs.len() > 0 {
        assert(frame_find(fs.last(), n) == -1) by {
            assert(fs[fs.len() - 1 - 0] == fs.last());
        }
        assert forall|d: int|
            0 <= d < fs.drop_last().len() implies frame_find(
            #[trigger] fs.drop_last()[fs.drop_last().len() - 1 - d],
            n,
        ) == -1 by {
            assert(fs.drop_last()[fs.drop_last().len() - 1 - d] == fs[fs.len() - 1 - (d + 1)]);
        }
        lemma_env_lookup_none(fs.drop_last(), n);
    }
}

/// Extending the prefix of traced values by one value appends exactly that
/// value's references.
proof fn lemma_values_refs_take_step(s: Seq<Value>, k: int)
    requires
        0 <= k < s.len(),
    ensures
        values_refs(s.take(k + 1)) == values_refs(s.take(k)) + s[k].spec_refs(),
    decreases k,
{
    if k == 0 {
        assert(s.take(1).first() == s[0]);
        assert(s.take(1).drop_first() =~= Seq::<Value>::empty());
        assert(s.take(0) =~= Seq::<Value>::empty());
        assert(values_refs(s.take(1)) =~= values_refs(s.take(0)) + s[0].spec_refs());
    } else {
        assert(s.take(k + 1).drop_first() =~= s.drop_first().take(k));
        assert(s.take(k).drop_first() =~= s.drop_first().take(k - 1));
        assert(s.take(k + 1).first() == s.first());
        assert(s.take(k).first() == s.first());
        lemma_values_refs_take_step(s.drop_first(), k - 1);
        assert(s.drop_first()[k - 1] == s[k]);
        assert(values_refs(s.take(k + 1)) =~= values_refs(s.take(k)) + s[k].spec_refs());
    }
}

/// Whether the coordinates `(i, j)` resolve against the activation chain
/// that starts at the activation `p` points at: following `i` parent
/// links stays on live activations and ends at a frame with more than
/// `j` slots.
pub open spec fn ptr_coord_ok(h: Heap, p: ActivationPtr, i: nat, j: nat) -> bool
    decreases i,
{
    if i == 0 {
        j < h.act_at(p).args@.len()
    } else {
        match h.act_at(p).parent {
            Some(q) => h.live(GcThing::Activation(q)) && ptr_coord_ok(h, q, (i - 1) as nat, j),
            None => false,
        }
    }
}

/// The value the coordinates `(i, j)` resolve to against the activation
/// chain that starts at the activation `p` points at.
pub open spec fn ptr_fetch(h: Heap, p: ActivationPtr, i: nat, j: nat) -> Value
    decreases i,
{
    if i == 0 {
        h.act_at(p).args@[j as int]
    } else {
        match h.act_at(p).parent {
            Some(q) => ptr_fetch(h, q, (i - 1) as nat, j),
            None => Value::EmptyList,
        }
    }
}

/// The activation `i` parent links above the one `p` points at.
pub open spec fn ptr_ancestor(h: Heap, p: ActivationPtr, i: nat) -> ActivationPtr
    decreases i,
{
    if i == 0 {
        p
    } else {
        match h.act_at(p).parent {
            Some(q) => ptr_ancestor(h, q, (i - 1) as nat),
            None => p,
        }
    }
}

/// Coordinates resolving with `i > 0` recurse into the parent: the value
/// found `i` frames up from `p` is the value found `i - 1` frames up
/// from `p`'s parent.
pub proof fn lemma_fetch_parent(h: Heap, p: ActivationPtr, q: ActivationPtr, i: nat, j: nat)
    requires
        i > 0,
        h.act_at(p).parent == Some(q),
    ensures
        ptr_fetch(h, p, i, j) == ptr_fetch(h, q, (i - 1) as nat, j),
        ptr_coord_ok(h, p, i, j) == (h.live(GcThing::Activation(q)) && ptr_coord_ok(
            h,
            q,
            (i - 1) as nat,
            j,
        )),
{
}

/// What the coordinates `(i, j)` mean on a detached activation value:
/// slot `j` of the activation itself when `i` is zero, and otherwise the
/// resolution against the parent chain in the heap.
pub open spec fn act_coord_ok(h: Heap, a: Activation, i: nat, j: nat) -> bool {
    if i == 0 {
        j < a.args@.len()
    } else {
        match a.parent {
            Some(q) => h.live(GcThing::Activation(q)) && ptr_coord_ok(h, q, (i - 1) as nat, j),
            None => false,
        }
    }
}

/// The value the coordinates `(i, j)` resolve to from a detached
/// activation value.
pub open spec fn act_fetch(h: Heap, a: Activation, i: nat, j: nat) -> Value {
    if i == 0 {
        a.args@[j as int]
    } else {
        match a.parent {
            Some(q) => ptr_fetch(h, q, (i - 1) as nat, j),
            None => Value::EmptyList,
        }
    }
}

/// In a well-formed heap a live activation references only live objects:
/// its parent link and every argument handle are live.
pub proof fn lemma_live_activation_ok(h: Heap, p: ActivationPtr)
    requires
        h.wf(),
        h.live(GcThing::Activation(p)),
    ensures
        activation_ok(h, h.act_at(p)),
{
    let a = h.act_at(p);
    let u = GcThing::Activation(p);
    lemma_values_refs_mem(a.args@);
    assert forall|k: int| 0 <= k < a.args@.len() implies value_live(
        h,
        #[trigger] a.args@[k],
    ) by {
        match a.args@[k].spec_gc_thing() {
            Some(t) => {
                assert(values_refs(a.args@).contains(t));
                let i = choose|i: int|
                    0 <= i < values_refs(a.args@).len() && values_refs(a.args@)[i] == t;
                assert(h.succs(u)[i] == t);
                assert(h.live(h.succs(u)[i]));
            },
            None => {},
        }
    }
    match a.parent {
        Some(q) => {
            let refs = h.succs(u);
            assert(refs[refs.len() - 1] == GcThing::Activation(q));
            assert(h.live(h.succs(u)[refs.len() - 1]));
        },
        None => {},
    }
}

impl Activation {
    /// Extend the given activation with the supplied values, resulting in
    /// a new activation whose parent is `parent` and whose slots hold the
    /// values in order. The temporary roots of the supplied values are
    /// given back; the new activation itself keeps them alive.
    pub fn extend(heap: &mut Heap, parent: &RootedActivationPtr, values: Vec<RootedValue>) -> (r:
        RootedActivationPtr)
        requires
            old(heap).wf(),
            old(heap).headroom(),
            old(heap).live(GcThing::Activation(parent.ptr)),
            old(heap).reachable(GcThing::Activation(parent.ptr)),
            forall|k: int|
                0 <= k < values@.len() ==> match (#[trigger] values@[k]).ptr.spec_gc_thing() {
                    Some(u) => old(heap).live(u) && old(heap).reachable(u),
                    None => true,
                },
        ensures
            final(heap).wf(),
            final(heap).live(GcThing::Activation(r.ptr)),
            final(heap).rooted(GcThing::Activation(r.ptr)),
            !(old(heap).live(GcThing::Activation(r.ptr)) && old(heap).reachable(
                GcThing::Activation(r.ptr),
            )),
            final(heap).act_at(r.ptr).parent == Some(parent.ptr),
            final(heap).act_at(r.ptr).args@ == values@.map_values(|rv: RootedValue| rv.ptr),
            ({
                let gc = old(heap).allocations + 1 > old(heap).allocations_threshold;
                let t = GcThing::Activation(r.ptr);
                &&& forall|u: GcThing|
                    u != t ==> (final(heap).live(u) <==> (old(heap).live(u) && (gc ==> old(
                        heap,
                    ).reachable(u))))
                &&& forall|p: ConsPtr|
                    old(heap).live(GcThing::Cons(p)) && (gc ==> old(heap).reachable(
                        GcThing::Cons(p),
                    )) ==> final(heap).cons_at(p) == old(heap).cons_at(p)
                &&& forall|p: StringPtr|
                    old(heap).live(GcThing::String(p)) && (gc ==> old(heap).reachable(
                        GcThing::String(p),
                    )) ==> final(heap).string_at(p) == old(heap).string_at(p)
                &&& forall|q: ActivationPtr|
                    old(heap).live(GcThing::Activation(q)) && (gc ==> old(heap).reachable(
                        GcThing::Activation(q),
                    )) && q != r.ptr ==> final(heap).act_at(q) == old(heap).act_at(q)
                &&& final(heap).symbol_table == old(heap).symbol_table
                &&& final(heap).locations == old(heap).locations
                &&& final(heap).environment == old(heap).environment
                &&& final(heap).global_activation == old(heap).global_activation
            }),
    {
        let act = heap.allocate_activation();
        let ghost mid = *heap;
        let ghost t = GcThing::Activation(act.ptr);
        let n = values.len();
        let mut args: Vec<Value> = Vec::new();
        let mut k: usize = 0;
        while k < n
            invariant
                k <= n,
                n == values@.len(),
                args@ == values@.take(k as int).map_values(|rv: RootedValue| rv.ptr),
            decreases n - k,
        {
            args.push(values[k].get());
            proof {
                assert(args@ =~= values@.take(k as int + 1).map_values(
                    |rv: RootedValue| rv.ptr,
                ));
            }
            k += 1;
        }
        proof {
            assert(values@.take(n as int) =~= values@);
        }
        let a = Activation { parent: Some(parent.get()), args };
        proof {
            assert(activation_ok(mid, a)) by {
                assert(mid.live(GcThing::Activation(parent.ptr)));
                assert forall|k2: int| 0 <= k2 < a.args@.len() implies value_live(
                    mid,
                    #[trigger] a.args@[k2],
                ) by {
                    assert(a.args@[k2] == values@[k2].ptr);
                    match values@[k2].ptr.spec_gc_thing() {
                        Some(u) => {
                            assert(u != t);
                            assert(mid.live(u));
                        },
                        None => {},
                    }
                }
            }
        }
        heap.write_activation(act.get(), a);
        let ghost mid2 = *heap;
        proof {
            assert forall|k2: int|
                0 <= k2 < values@.len() implies match (#[trigger] values@[k2]).ptr.spec_gc_thing() {
                Some(u) => u != t,
                None => true,
            } by {
                match values@[k2].ptr.spec_gc_thing() {
                    Some(u) => {
                        assert(old(heap).live(u) && old(heap).reachable(u));
                    },
                    None => {},
                }
            }
        }
        // Give the temporary value roots back: the new activation now
        // keeps the values alive.
        let mut k: usize = 0;
        while k < n
            invariant
                k <= n,
                n == values@.len(),
                mid2.wf(),
                heap.wf(),
                heap_drops_only(mid2, *heap, t),
                forall|k2: int|
                    0 <= k2 < values@.len() ==> match (
                    #[trigger] values@[k2]).ptr.spec_gc_thing() {
                        Some(u) => u != t,
                        None => true,
                    },
            decreases n - k,
        {
            let ghost before = *heap;
            heap.drop_root(&values[k]);
            proof {
                assert(heap_drops_only(mid2, *heap, t)) by {
                    match values@[k as int].ptr.spec_gc_thing() {
                        Some(u) => {
                            assert(u != t);
                            assert(heap.root_count(t) == before.root_count(t));
                        },
                        None => {},
                    }
                }
            }
            k += 1;
        }
        proof {
            crate::heap::lemma_graph_eq(mid2, *heap);
            let gc = old(heap).allocations + 1 > old(heap).allocations_threshold;
            assert(heap.act_at(act.ptr).parent == Some(parent.ptr));
            assert(heap.act_at(act.ptr).args@ == values@.map_values(|rv: RootedValue| rv.ptr));
            assert forall|u: GcThing|
                u != t implies (heap.live(u) <==> (old(heap).live(u) && (gc ==> old(
                heap,
            ).reachable(u)))) by {
                assert(heap.live(u) == mid2.live(u));
                assert(mid2.live(u) == mid.live(u));
            }
            assert forall|p: ConsPtr|
                old(heap).live(GcThing::Cons(p)) && (gc ==> old(heap).reachable(
                    GcThing::Cons(p),
                )) implies heap.cons_at(p) == old(heap).cons_at(p) by {
                assert(mid.cons_at(p) == old(heap).cons_at(p));
                assert(mid.live(GcThing::Cons(p)));
                assert(mid2.cons_at(p) == mid.cons_at(p));
            }
            assert forall|p: StringPtr|
                old(heap).live(GcThing::String(p)) && (gc ==> old(heap).reachable(
                    GcThing::String(p),
                )) implies heap.string_at(p) == old(heap).string_at(p) by {
                assert(mid.string_at(p) == old(heap).string_at(p));
                assert(mid.live(GcThing::String(p)));
                assert(mid2.string_at(p) == mid.string_at(p));
            }
            assert forall|q: ActivationPtr|
                old(heap).live(GcThing::Activation(q)) && (gc ==> old(heap).reachable(
                    GcThing::Activation(q),
                )) && q != act.ptr implies heap.act_at(q) == old(heap).act_at(q) by {
                assert(mid.act_at(q) == old(heap).act_at(q));
                assert(mid.live(GcThing::Activation(q)));
                assert(mid2.act_at(q) == mid.act_at(q));
            }
        }
        act
    }

    /// Fetch the value at the coordinates `(i, j)`: slot `j` of this
    /// activation when `i` is zero, and otherwise the slot found by
    /// recursing `i` parent links up the chain.
    pub fn fetch(&self, heap: &mut Heap, i: u32, j: u32) -> (r: RootedValue)
        requires
            old(heap).wf(),
            activation_ok(*old(heap), *self),
            act_coord_ok(*old(heap), *self, i as nat, j as nat),
            match act_fetch(*old(heap), *self, i as nat, j as nat).spec_gc_thing() {
                Some(u) => old(heap).root_count(u) < usize::MAX,
                None => true,
            },
        ensures
            final(heap).wf(),
            r.ptr == act_fetch(*old(heap), *self, i as nat, j as nat),
            heap_with_extra_root(*old(heap), *final(heap), r.ptr.spec_gc_thing()),
        decreases i,
    {
        if i == 0 {
            let v = self.args[j as usize];
            return Rooted::new(heap, v);
        }
        let q = match self.parent {
            Some(q) => q,
            None => {
                proof {
                    assert(false);
                }
                unreached()
            },
        };
        let pa = heap.read_activation(q);
        proof {
            lemma_live_activation_ok(*old(heap), q);
            assert(activation_ok(*old(heap), pa)) by {
                assert(pa.parent == old(heap).act_at(q).parent);
                assert forall|k: int| 0 <= k < pa.args@.len() implies value_live(
                    *old(heap),
                    #[trigger] pa.args@[k],
                ) by {
                    assert(old(heap).act_at(q).args@[k] == pa.args@[k]);
                    assert(value_live(*old(heap), old(heap).act_at(q).args@[k]));
                }
            }
            assert(act_coord_ok(*old(heap), pa, (i - 1) as nat, j as nat));
            assert(act_fetch(*old(heap), pa, (i - 1) as nat, j as nat) == act_fetch(
                *old(heap),
                *self,
                i as nat,
                j as nat,
            ));
        }
        pa.fetch(heap, i - 1, j)
    }
}

/// The second heap is the first with nothing changed but some root
/// registrations other than `t`'s given back.
pub open spec fn heap_drops_only(pre: Heap, post: Heap, t: GcThing) -> bool {
    &&& heap_eq_but_roots(pre, post)
    &&& post.root_count(t) == pre.root_count(t)
    &&& forall|u: GcThing| post.root_count(u) <= pre.root_count(u)
}

impl ActivationPtr {
    /// Update the value at the coordinates `(i, j)` reached from the
    /// activation this handle points at: slot `j` of the activation `i`
    /// parent links up the chain is overwritten with `val`'s referent.
    pub fn update(self, heap: &mut Heap, i: u32, j: u32, val: &RootedValue)
        requires
            old(heap).wf(),
            old(heap).live(GcThing::Activation(self)),
            ptr_coord_ok(*old(heap), self, i as nat, j as nat),
            value_live(*old(heap), val.ptr),
        ensures
            final(heap).wf(),
            mutate_rel(
                *old(heap),
                *final(heap),
                GcThing::Activation(ptr_ancestor(*old(heap), self, i as nat)),
            ),
            ({
                let tgt = ptr_ancestor(*old(heap), self, i as nat);
                &&& final(heap).act_at(tgt).parent == old(heap).act_at(tgt).parent
                &&& final(heap).act_at(tgt).args@ == old(heap).act_at(tgt).args@.update(
                    j as int,
                    val.ptr,
                )
            }),
    {
        let ghost h0 = *heap;
        let mut cur = self;
        let mut k = i;
        while k > 0
            invariant
                *heap == h0,
                h0.wf(),
                h0.live(GcThing::Activation(cur)),
                ptr_coord_ok(h0, cur, k as nat, j as nat),
                ptr_ancestor(h0, cur, k as nat) == ptr_ancestor(h0, self, i as nat),
            decreases k,
        {
            proof {
                lemma_live_activation_ok(h0, cur);
            }
            let a = heap.read_activation(cur);
            let q = match a.parent {
                Some(q) => q,
                None => {
                    proof {
                        assert(false);
                    }
                    unreached()
                },
            };
            proof {
                assert(h0.act_at(cur).parent == Some(q));
                assert(ptr_ancestor(h0, cur, k as nat) == ptr_ancestor(h0, q, (k - 1) as nat));
                assert(ptr_coord_ok(h0, q, (k - 1) as nat, j as nat));
            }
            cur = q;
            k = k - 1;
        }
        proof {
            assert(cur == ptr_ancestor(h0, self, i as nat));
            assert(j < h0.act_at(cur).args@.len());
            lemma_live_activation_ok(h0, cur);
        }
        let mut a = heap.read_activation(cur);
        let ghost a0 = a;
        a.args.set(j as usize, val.get());
        proof {
            assert(activation_ok(h0, a)) by {
                assert forall|m: int| 0 <= m < a.args@.len() implies value_live(
                    h0,
                    #[trigger] a.args@[m],
                ) by {
                    if m != j {
                        assert(a.args@[m] == h0.act_at(cur).args@[m]);
                        assert(value_live(h0, h0.act_at(cur).args@[m]));
                    }
                }
            }
        }
        heap.write_activation(cur, a);
    }
}


/// A name absent from a frame is bound at the end once pushed.
pub proof fn lemma_frame_find_push(f: Seq<Seq<char>>, n: Seq<char>)
    requires
        frame_find(f, n) == -1,
    ensures
        frame_find(f.push(n), n) == f.len(),
    decreases f.len(),
{
    lemma_frame_find(f, n);
    if f.len() == 0 {
        assert(f.push(n).first() == n);
    } else {
        assert(f[0] != n);
        assert(f.push(n).first() == f.first());
        assert(f.push(n).drop_first() =~= f.drop_first().push(n));
        assert(frame_find(f.drop_first(), n) == -1) by {
            lemma_frame_find(f.drop_first(), n);
            if frame_find(f.drop_first(), n) >= 0 {
                assert(f.drop_first()[frame_find(f.drop_first(), n)] == n);
                assert(f[frame_find(f.drop_first(), n) + 1] == n);
            }
        }
        lemma_frame_find_push(f.drop_first(), n);
    }
}

/// Defining a fresh name and then looking it up yields `(0, j)` where
/// `j` is the youngest frame's size before the define.
pub proof fn lemma_define_then_lookup(fs: Seq<Seq<Seq<char>>>, n: Seq<char>)
    requires
        fs.len() >= 1,
        frame_find(fs.last(), n) == -1,
    ensures
        env_lookup(fs.update(fs.len() - 1, fs.last().push(n)), n) == Some(
            (0int, fs.last().len() as int),
        ),
{
    let fs2 = fs.update(fs.len() - 1, fs.last().push(n));
    assert(fs2.last() == fs.last().push(n));
    lemma_frame_find_push(fs.last(), n);
}

/// Redefining an already-bound name leaves the binding alone: looking it
/// up still yields the original `(0, j)`. This is also why an inner
/// binding shadows any outer one: a hit in the youngest frame decides
/// the lookup before any outer frame is consulted.
pub proof fn lemma_lookup_hits_top(fs: Seq<Seq<Seq<char>>>, n: Seq<char>)
    requires
        fs.len() >= 1,
        frame_find(fs.last(), n) >= 0,
    ensures
        env_lookup(fs, n) == Some((0int, frame_find(fs.last(), n))),
{
}

/// A frame extended from names with no duplicates is exactly those
/// names.
pub proof fn lemma_extend_frame_distinct(ns: Seq<Seq<char>>)
    requires
        ns.no_duplicates(),
    ensures
        extend_frame(ns) == ns,
    decreases ns.len(),
{
    if ns.len() > 0 {
        assert(ns.drop_last().no_duplicates());
        lemma_extend_frame_distinct(ns.drop_last());
        lemma_frame_find(ns.drop_last(), ns.last());
        assert(frame_find(ns.drop_last(), ns.last()) == -1) by {
            if frame_find(ns.drop_last(), ns.last()) >= 0 {
                let j = frame_find(ns.drop_last(), ns.last());
                assert(ns.drop_last()[j] == ns.last());
                assert(ns[j] == ns[ns.len() - 1]);
            }
        }
        assert(extend_frame(ns) =~= ns) by {
            assert(extend_frame(ns) == ns.drop_last().push(ns.last()));
        }
    }
}

/// In a frame with no duplicate names, the slot of the `k`-th name is
/// `k`.
pub proof fn lemma_frame_find_at(f: Seq<Seq<char>>, k: int)
    requires
        f.no_duplicates(),
        0 <= k < f.len(),
    ensures
        frame_find(f, f[k]) == k,
{
    lemma_frame_find(f, f[k]);
    let j = frame_find(f, f[k]);
    assert(f.contains(f[k]));
    if j == -1 {
        assert(f[k] != f[k]);
    }
    assert(f[j] == f[k]);
    if j != k {
        assert(f[j] != f[k]);
    }
}

/// Extending a scope with distinct names binds the `k`-th name to slot
/// `k` of the new frame: looking each name up yields `(0, k)`.
pub proof fn lemma_extend_then_lookup(fs: Seq<Seq<Seq<char>>>, ns: Seq<Seq<char>>, k: int)
    requires
        ns.no_duplicates(),
        0 <= k < ns.len(),
    ensures
        env_lookup(fs.push(extend_frame(ns)), ns[k]) == Some((0int, k)),
{
    lemma_extend_frame_distinct(ns);
    lemma_frame_find_at(ns, k);
    let fs2 = fs.push(extend_frame(ns));
    assert(fs2.last() == ns);
    lemma_lookup_hits_top(fs2, ns[k]);
}

/// A name bound anywhere in the names of an `extend` is bound in the
/// extended frame.
pub proof fn lemma_extend_frame_contains(ns: Seq<Seq<char>>, n: Seq<char>)
    requires
        ns.contains(n),
    ensures
        frame_find(extend_frame(ns), n) >= 0,
    decreases ns.len(),
{
    lemma_frame_find(extend_frame(ns), n);
    if ns.len() > 0 {
        let f = extend_frame(ns.drop_last());
        lemma_frame_find(f, n);
        if n == ns.last() {
            if frame_find(f, n) >= 0 {
                lemma_frame_find(f, n);
                assert(extend_frame(ns) == f);
            } else {
                lemma_frame_find_push(f, n);
            }
        } else {
            assert(ns.drop_last().contains(n)) by {
                let m = choose|m: int| 0 <= m < ns.len() && ns[m] == n;
                assert(m < ns.len() - 1);
                assert(ns.drop_last()[m] == n);
            }
            lemma_extend_frame_contains(ns.drop_last(), n);
            lemma_frame_find(f, n);
            assert(f[frame_find(f, n)] == n);
            if frame_find(extend_frame(ns), n) == -1 {
                assert(extend_frame(ns)[frame_find(f, n)] != n);
                if frame_find(f, n) < f.len() {
                    assert(extend_frame(ns)[frame_find(f, n)] == f[frame_find(f, n)]);
                }
            }
        }
    }
}

/// Shadowing: after extending a scope with a name that an outer scope
/// also binds, the lookup yields `(0, j)` for the new frame's slot — the
/// inner binding wins.
pub proof fn lemma_extend_shadows(fs: Seq<Seq<Seq<char>>>, ns: Seq<Seq<char>>, n: Seq<char>)
    requires
        ns.contains(n),
    ensures
        env_lookup(fs.push(extend_frame(ns)), n) == Some(
            (0int, frame_find(extend_frame(ns), n)),
        ),
{
    lemma_extend_frame_contains(ns, n);
    let fs2 = fs.push(extend_frame(ns));
    assert(fs2.last() == extend_frame(ns));
    lemma_lookup_hits_top(fs2, n);
}

} // verus!
