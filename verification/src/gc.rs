//! The tracing half of the mark-and-sweep collector. The objects of the
//! heap are numbered `0..n`; object `i` refers to the objects listed in
//! `graph[i]`. Starting from the roots, marking follows references with a
//! grey worklist and marks exactly the objects that can be reached; the
//! sweep then frees every object left unmarked.
use crate::value::{Value, spec_is_obj, spec_obj_handle};
use vstd::prelude::*;

verus! {

/// How much the heap may grow, relative to what survived a collection,
/// before the next collection.
pub const GC_HEAP_GROWTH_FACTOR: usize = 2;

/// The heap size at which the next collection starts: twice what survived
/// the last one.
pub fn next_collection_at(bytes_allocated: usize) -> (n: usize)
    requires
        bytes_allocated * GC_HEAP_GROWTH_FACTOR <= usize::MAX,
    ensures
        n == bytes_allocated * 2,
{
    bytes_allocated * GC_HEAP_GROWTH_FACTOR
}

/// Object `from` refers to object `to`.
pub open spec fn refers(graph: Seq<Seq<usize>>, from: int, to: int) -> bool {
    &&& 0 <= from < graph.len()
    &&& exists|k: int| 0 <= k < graph[from].len() && #[trigger] graph[from][k] as int == to
}

/// Object `i` is one of the roots.
pub open spec fn is_root(roots: Seq<usize>, i: int) -> bool {
    exists|k: int| 0 <= k < roots.len() && #[trigger] roots[k] as int == i
}

/// Each object of `path` refers to the next.
pub open spec fn is_trace(graph: Seq<Seq<usize>>, path: Seq<int>) -> bool {
    &&& path.len() >= 1
    &&& forall|j: int| 0 <= j < path.len() - 1 ==> refers(graph, #[trigger] path[j], path[j + 1])
}

/// Object `i` can be reached from one of the roots by following
/// references.
pub open spec fn reachable(graph: Seq<Seq<usize>>, roots: Seq<usize>, i: int) -> bool {
    exists|path: Seq<int>|
        #[trigger] is_trace(graph, path) && is_root(roots, path[0]) && path.last() == i
}

/// The references of each object, as mathematical sequences.
pub open spec fn graph_view(graph: &Vec<Vec<usize>>) -> Seq<Seq<usize>> {
    Seq::new(graph@.len(), |i: int| graph@[i]@)
}

/// How many entries of `s` are `false`.
spec fn count_unmarked(s: Seq<bool>) -> nat
    decreases s.len(),
{
    if s.len() == 0 {
        0
    } else {
        count_unmarked(s.drop_last()) + if s.last() {
            0nat
        } else {
            1nat
        }
    }
}

/// Marking one unmarked entry lowers the count of unmarked entries by one.
proof fn lemma_mark_one(s: Seq<bool>, i: int)
    requires
        0 <= i < s.len(),
        !s[i],
    ensures
        count_unmarked(s.update(i, true)) + 1 == count_unmarked(s),
    decreases s.len(),
{
    let t = s.update(i, true);
    if i == s.len() - 1 {
        assert(t.drop_last() =~= s.drop_last());
    } else {
        lemma_mark_one(s.drop_last(), i);
        assert(t.drop_last() =~= s.drop_last().update(i, true));
    }
}

/// A set of marks that holds every root and every object that a marked
/// object refers to (among the objects of the graph) holds every reachable
/// object.
proof fn lemma_closure_holds_reachable(
    graph: Seq<Seq<usize>>,
    roots: Seq<usize>,
    marked: Seq<bool>,
    path: Seq<int>,
)
    requires
        marked.len() == graph.len(),
        is_trace(graph, path),
        is_root(roots, path[0]),
        0 <= path.last() < graph.len(),
        forall|k: int| 0 <= k < roots.len() && roots[k] < graph.len() ==> marked[#[trigger] roots[k] as int],
        forall|i: int, k: int|
            0 <= i < graph.len() && marked[i] && 0 <= k < graph[i].len() && graph[i][k] < graph.len()
                ==> marked[#[trigger] graph[i][k] as int],
    ensures
        marked[path.last()],
    decreases path.len(),
{
    if path.len() == 1 {
        let k = choose|k: int| 0 <= k < roots.len() && #[trigger] roots[k] as int == path[0];
        assert(marked[roots[k] as int]);
    } else {
        let prefix = path.drop_last();
        assert forall|j: int| 0 <= j < prefix.len() - 1 implies refers(
            graph,
            #[trigger] prefix[j],
            prefix[j + 1],
        ) by {
            assert(prefix[j] == path[j] && prefix[j + 1] == path[j + 1]);
        }
        let from = path[path.len() - 2];
        assert(refers(graph, from, path.last()));
        assert(prefix.last() == from);
        lemma_closure_holds_reachable(graph, roots, marked, prefix);
        let k = choose|k: int| 0 <= k < graph[from].len() && #[trigger] graph[from][k] as int == path.last();
        assert(marked[graph[from][k] as int]);
    }
}

/// A reachable object's references are reachable too.
proof fn lemma_reachable_step(graph: Seq<Seq<usize>>, roots: Seq<usize>, i: int, t: int)
    requires
        reachable(graph, roots, i),
        refers(graph, i, t),
    ensures
        reachable(graph, roots, t),
{
    let path = choose|path: Seq<int>|
        #[trigger] is_trace(graph, path) && is_root(roots, path[0]) && path.last() == i;
    let longer = path.push(t);
    assert forall|j: int| 0 <= j < longer.len() - 1 implies refers(
        graph,
        #[trigger] longer[j],
        longer[j + 1],
    ) by {
        if j < path.len() - 1 {
            assert(longer[j] == path[j] && longer[j + 1] == path[j + 1]);
        } else {
            assert(longer[j] == i && longer[j + 1] == t);
        }
    }
    assert(is_trace(graph, longer));
    assert(longer[0] == path[0]);
}

/// A root is reachable.
proof fn lemma_root_reachable(graph: Seq<Seq<usize>>, roots: Seq<usize>, k: int)
    requires
        0 <= k < roots.len(),
    ensures
        reachable(graph, roots, roots[k] as int),
{
    let path = seq![roots[k] as int];
    assert(is_trace(graph, path));
    assert(is_root(roots, path[0]));
}

/// Marks every object that can be reached from `roots`: each root is marked
/// and put on a grey worklist; an object taken from the worklist marks
/// each object it refers to that is not marked yet and puts it on the
/// worklist, until the worklist is empty. A reference or a root that
/// names no object of the graph is passed over. The result has one entry
/// per object, which is `true` exactly for the reachable objects.
pub fn trace_references(graph: &Vec<Vec<usize>>, roots: &Vec<usize>) -> (marked: Vec<bool>)
    ensures
        marked@.len() == graph@.len(),
        forall|i: int|
            0 <= i < graph@.len() ==> (marked@[i] <==> reachable(graph_view(graph), roots@, i)),
{
    let ghost g = graph_view(graph);
    let n = graph.len();
    let mut marked: Vec<bool> = Vec::new();
    while marked.len() < n
        invariant
            marked@.len() <= n == graph@.len(),
            forall|i: int| 0 <= i < marked@.len() ==> !marked@[i],
        decreases n - marked@.len(),
    {
        marked.push(false);
    }
    let mut grey: Vec<usize> = Vec::new();
    // Every marked object is reachable and every object on the worklist is
    // marked. While the roots are marked, every marked object is on the
    // worklist; after that, a marked object off the worklist has all the
    // objects it refers to marked.
    let mut r: usize = 0;
    while r < roots.len()
        invariant
            g == graph_view(graph),
            marked@.len() == n == g.len(),
            r <= roots@.len(),
            forall|i: int| 0 <= i < n && marked@[i] ==> reachable(g, roots@, i),
            forall|j: int| 0 <= j < grey@.len() ==> (#[trigger] grey@[j]) < n && marked@[grey@[j] as int],
            forall|i: int| 0 <= i < n && marked@[i] ==> grey@.contains(i as usize),
            forall|k: int| 0 <= k < r && roots@[k] < n ==> marked@[#[trigger] roots@[k] as int],
        decreases roots@.len() - r,
    {
        let o = roots[r];
        if o < n && !marked[o] {
            proof {
                lemma_root_reachable(g, roots@, r as int);
            }
            let ghost before = grey@;
            marked.set(o, true);
            grey.push(o);
            proof {
                assert forall|i: int| 0 <= i < n && marked@[i] implies #[trigger] grey@.contains(i as usize) by {
                    vstd::seq_lib::lemma_seq_contains_after_push(before, o, i as usize);
                }
            }
        }
        r = r + 1;
    }
    while grey.len() > 0
        invariant
            g == graph_view(graph),
            marked@.len() == n == g.len(),
            forall|i: int| 0 <= i < n && marked@[i] ==> reachable(g, roots@, i),
            forall|j: int| 0 <= j < grey@.len() ==> (#[trigger] grey@[j]) < n && marked@[grey@[j] as int],
            forall|k: int| 0 <= k < roots@.len() && roots@[k] < n ==> marked@[#[trigger] roots@[k] as int],
            forall|i: int, k: int|
                0 <= i < n && marked@[i] && !grey@.contains(i as usize) && 0 <= k < g[i].len()
                    && g[i][k] < n ==> marked@[#[trigger] g[i][k] as int],
        decreases 2 * count_unmarked(marked@) + grey@.len(),
    {
        let ghost measure = 2 * count_unmarked(marked@) + grey@.len();
        let ghost full = grey@;
        let o = grey.pop().unwrap();
        proof {
            assert(grey@.push(o) =~= full);
            assert forall|i: int|
                0 <= i < n && i != o && !#[trigger] grey@.contains(i as usize) implies !full.contains(
                i as usize,
            ) by {
                vstd::seq_lib::lemma_seq_contains_after_push(grey@, o, i as usize);
            }
        }
        let edges = &graph[o];
        proof {
            assert(g[o as int] == edges@);
        }
        let mut k: usize = 0;
        while k < edges.len()
            invariant
                g == graph_view(graph),
                    marked@.len() == n == g.len(),
                o < n,
                marked@[o as int],
                edges@ == g[o as int],
                k <= edges@.len(),
                2 * count_unmarked(marked@) + grey@.len() + 1 <= measure,
                forall|i: int| 0 <= i < n && marked@[i] ==> reachable(g, roots@, i),
                forall|j: int| 0 <= j < grey@.len() ==> (#[trigger] grey@[j]) < n && marked@[grey@[j] as int],
                forall|q: int| 0 <= q < roots@.len() && roots@[q] < n ==> marked@[#[trigger] roots@[q] as int],
                forall|q: int| 0 <= q < k && edges@[q] < n ==> marked@[#[trigger] edges@[q] as int],
                forall|i: int, q: int|
                    0 <= i < n && i != o && marked@[i] && !grey@.contains(i as usize) && 0 <= q
                        < g[i].len() && g[i][q] < n ==> marked@[#[trigger] g[i][q] as int],
            decreases edges@.len() - k,
        {
            let t = edges[k];
            if t < n && !marked[t] {
                let ghost before = grey@;
                proof {
                    assert(refers(g, o as int, t as int)) by {
                        assert(g[o as int][k as int] == t);
                    }
                    lemma_reachable_step(g, roots@, o as int, t as int);
                    lemma_mark_one(marked@, t as int);
                }
                marked.set(t, true);
                grey.push(t);
                proof {
                    assert forall|i: int|
                        0 <= i < n && i != t && !#[trigger] grey@.contains(i as usize) implies !before.contains(
                        i as usize,
                    ) by {
                        vstd::seq_lib::lemma_seq_contains_after_push(before, t, i as usize);
                    }
                    assert forall|i: int| 0 <= i < n && i == t implies #[trigger] grey@.contains(i as usize) by {
                        vstd::seq_lib::lemma_seq_contains_after_push(before, t, i as usize);
                    }
                }
            }
            k = k + 1;
        }
    }
    proof {
        assert forall|i: int| 0 <= i < n implies (marked@[i] <==> reachable(g, roots@, i)) by {
            if reachable(g, roots@, i) {
                let path = choose|path: Seq<int>|
                    #[trigger] is_trace(g, path) && is_root(roots@, path[0]) && path.last() == i;
                lemma_closure_holds_reachable(g, roots@, marked@, path);
            }
        }
    }
    marked
}

// ---------------------------------------------------------------------------
// What each object refers to
// ---------------------------------------------------------------------------

/// A heap object as the collector sees it: the values and object handles
/// that it holds. Strings and native functions hold none.
pub enum HeapObject {
    String,
    Native,
    /// A function refers to the objects among its constants.
    Function { constants: Vec<Value> },
    /// A closure refers to its function and to its upvalues.
    Closure { function: u64, upvalues: Vec<u64> },
    /// An upvalue refers to the value it holds, open or closed.
    UpValue { value: Value },
    /// A class refers to the names and the closures of its methods.
    Class { methods: Vec<(u64, Value)> },
    /// An instance refers to its class and to the names and values of its
    /// fields.
    Instance { class: u64, fields: Vec<(u64, Value)> },
    /// A bound method refers to its receiver and to its method.
    BoundMethod { receiver: Value, method: u64 },
}

/// The handles of the object values among `vs`, in order.
pub open spec fn value_handles(vs: Seq<Value>) -> Seq<u64>
    decreases vs.len(),
{
    if vs.len() == 0 {
        Seq::empty()
    } else {
        value_handles(vs.drop_last()) + if spec_is_obj(vs.last().0) {
            seq![spec_obj_handle(vs.last().0)]
        } else {
            Seq::<u64>::empty()
        }
    }
}

/// For each entry of a table, in order, the handle of its name and then the
/// handle of its value when that is an object.
pub open spec fn entry_handles(es: Seq<(u64, Value)>) -> Seq<u64>
    decreases es.len(),
{
    if es.len() == 0 {
        Seq::empty()
    } else {
        entry_handles(es.drop_last()) + seq![es.last().0] + value_handles(seq![es.last().1])
    }
}

/// The handles of the objects that `obj` refers to, in the order in which
/// marking visits them.
pub open spec fn references_of(obj: HeapObject) -> Seq<u64> {
    match obj {
        HeapObject::String => Seq::empty(),
        HeapObject::Native => Seq::empty(),
        HeapObject::Function { constants } => value_handles(constants@),
        HeapObject::Closure { function, upvalues } => seq![function] + upvalues@,
        HeapObject::UpValue { value } => value_handles(seq![value]),
        HeapObject::Class { methods } => entry_handles(methods@),
        HeapObject::Instance { class, fields } => seq![class] + entry_handles(fields@),
        HeapObject::BoundMethod { receiver, method } => value_handles(seq![receiver]) + seq![
            method,
        ],
    }
}

/// The handles among one more value are those before it and its own.
proof fn lemma_value_handles_push(vs: Seq<Value>, v: Value)
    ensures
        value_handles(vs.push(v)) == value_handles(vs) + value_handles(seq![v]),
        value_handles(seq![v]) == if spec_is_obj(v.0) {
            seq![spec_obj_handle(v.0)]
        } else {
            Seq::<u64>::empty()
        },
{
    assert(vs.push(v).drop_last() =~= vs);
    assert(seq![v].drop_last() =~= Seq::<Value>::empty());
    assert(value_handles(Seq::<Value>::empty()) =~= Seq::<u64>::empty());
}

/// Appends the handle of `v` to `out` when `v` is an object.
fn push_value_handle(out: &mut Vec<u64>, v: Value)
    ensures
        final(out)@ == old(out)@ + value_handles(seq![v]),
{
    proof {
        lemma_value_handles_push(Seq::empty(), v);
    }
    if v.is_obj() {
        out.push(v.as_obj());
        proof {
            assert(out@ =~= old(out)@ + value_handles(seq![v]));
        }
    } else {
        proof {
            assert(out@ =~= old(out)@ + value_handles(seq![v]));
        }
    }
}

/// Appends the handles of the objects among `vs` to `out`.
fn push_value_handles(out: &mut Vec<u64>, vs: &Vec<Value>)
    ensures
        final(out)@ == old(out)@ + value_handles(vs@),
{
    let mut i: usize = 0;
    while i < vs.len()
        invariant
            i <= vs@.len(),
            out@ == old(out)@ + value_handles(vs@.take(i as int)),
        decreases vs@.len() - i,
    {
        let ghost before = out@;
        push_value_handle(out, vs[i]);
        proof {
            assert(vs@.take(i as int + 1) =~= vs@.take(i as int).push(vs@[i as int]));
            lemma_value_handles_push(vs@.take(i as int), vs@[i as int]);
        }
        i = i + 1;
        proof {
            assert(out@ =~= old(out)@ + value_handles(vs@.take(i as int)));
        }
    }
    proof {
        assert(vs@.take(i as int) =~= vs@);
    }
}

/// Appends the handles that the entries of a table refer to.
fn push_entry_handles(out: &mut Vec<u64>, es: &Vec<(u64, Value)>)
    ensures
        final(out)@ == old(out)@ + entry_handles(es@),
{
    let mut i: usize = 0;
    while i < es.len()
        invariant
            i <= es@.len(),
            out@ == old(out)@ + entry_handles(es@.take(i as int)),
        decreases es@.len() - i,
    {
        let (name, value) = es[i];
        out.push(name);
        push_value_handle(out, value);
        proof {
            let t = es@.take(i as int + 1);
            assert(t.drop_last() =~= es@.take(i as int));
            assert(t.last() == es@[i as int]);
        }
        i = i + 1;
        proof {
            assert(out@ =~= old(out)@ + entry_handles(es@.take(i as int)));
        }
    }
    proof {
        assert(es@.take(i as int) =~= es@);
    }
}

/// The handles of the objects that `obj` refers to, which marking it
/// greys: the objects among a function's constants; a closure's function and
/// upvalues; the value an upvalue holds; the names and values of a class's
/// methods; an instance's class and the names and values of its fields; a
/// bound method's receiver and method.
pub fn references(obj: &HeapObject) -> (r: Vec<u64>)
    ensures
        r@ == references_of(*obj),
{
    let mut out: Vec<u64> = Vec::new();
    match obj {
        HeapObject::String => {},
        HeapObject::Native => {},
        HeapObject::Function { constants } => {
            push_value_handles(&mut out, constants);
        },
        HeapObject::Closure { function, upvalues } => {
            out.push(*function);
            let mut i: usize = 0;
            while i < upvalues.len()
                invariant
                    i <= upvalues@.len(),
                    out@ == seq![*function] + upvalues@.take(i as int),
                decreases upvalues@.len() - i,
            {
                out.push(upvalues[i]);
                i = i + 1;
                proof {
                    assert(out@ =~= seq![*function] + upvalues@.take(i as int));
                }
            }
            proof {
                assert(upvalues@.take(i as int) =~= upvalues@);
            }
        },
        HeapObject::UpValue { value } => {
            push_value_handle(&mut out, *value);
        },
        HeapObject::Class { methods } => {
            push_entry_handles(&mut out, methods);
        },
        HeapObject::Instance { class, fields } => {
            out.push(*class);
            push_entry_handles(&mut out, fields);
        },
        HeapObject::BoundMethod { receiver, method } => {
            push_value_handle(&mut out, *receiver);
            out.push(*method);
        },
    }
    proof {
        assert(out@ =~= references_of(*obj));
    }
    out
}

// ---------------------------------------------------------------------------
// Laws of what an object refers to
// ---------------------------------------------------------------------------

/// `v` is an object value of handle `h`.
pub open spec fn is_object_of(v: Value, h: u64) -> bool {
    spec_is_obj(v.0) && spec_obj_handle(v.0) == h
}

/// Some value among `vs` is an object value of handle `h`.
pub open spec fn has_object_value(vs: Seq<Value>, h: u64) -> bool {
    exists|i: int| 0 <= i < vs.len() && #[trigger] is_object_of(vs[i], h)
}

/// A table entry is named by `h` or holds an object value of handle `h`.
pub open spec fn entry_holds(e: (u64, Value), h: u64) -> bool {
    e.0 == h || is_object_of(e.1, h)
}

/// Some entry of a table holds `h`.
pub open spec fn has_entry_handle(es: Seq<(u64, Value)>, h: u64) -> bool {
    exists|i: int| 0 <= i < es.len() && #[trigger] entry_holds(es[i], h)
}

/// `obj` holds handle `h` in one of its fields: a handle field, an object
/// value, or a name or value of one of its table entries.
pub open spec fn holds(obj: HeapObject, h: u64) -> bool {
    match obj {
        HeapObject::String => false,
        HeapObject::Native => false,
        HeapObject::Function { constants } => has_object_value(constants@, h),
        HeapObject::Closure { function, upvalues } => function == h || upvalues@.contains(h),
        HeapObject::UpValue { value } => is_object_of(value, h),
        HeapObject::Class { methods } => has_entry_handle(methods@, h),
        HeapObject::Instance { class, fields } => class == h || has_entry_handle(fields@, h),
        HeapObject::BoundMethod { receiver, method } => method == h || is_object_of(receiver, h),
    }
}

proof fn lemma_value_handles_contains(vs: Seq<Value>, h: u64)
    ensures
        value_handles(vs).contains(h) <==> has_object_value(vs, h),
    decreases vs.len(),
{
    if vs.len() > 0 {
        let init = vs.drop_last();
        let v = vs.last();
        lemma_value_handles_contains(init, h);
        assert(vs =~= init.push(v));
        lemma_value_handles_push(init, v);
        let tail = value_handles(seq![v]);
        if value_handles(vs).contains(h) {
            let k = choose|k: int| 0 <= k < value_handles(vs).len() && value_handles(vs)[k] == h;
            if k < value_handles(init).len() {
                assert(value_handles(init)[k] == h);
                assert(value_handles(init).contains(h));
                let i = choose|i: int| 0 <= i < init.len() && #[trigger] is_object_of(init[i], h);
                assert(vs[i] == init[i]);
                assert(is_object_of(vs[i], h));
            } else {
                assert(spec_is_obj(v.0) && spec_obj_handle(v.0) == h);
                assert(vs[vs.len() - 1] == v);
                assert(is_object_of(vs[vs.len() - 1], h));
            }
        }
        if has_object_value(vs, h) {
            let i = choose|i: int| 0 <= i < vs.len() && #[trigger] is_object_of(vs[i], h);
            if i < vs.len() - 1 {
                assert(init[i] == vs[i]);
                assert(is_object_of(init[i], h));
                assert(has_object_value(init, h));
                let k = choose|k: int| 0 <= k < value_handles(init).len() && value_handles(init)[k] == h;
                assert(value_handles(vs)[k] == h);
            } else {
                assert(tail =~= seq![h]);
                assert(value_handles(vs)[value_handles(init).len() as int] == h);
            }
        }
    }
}

proof fn lemma_entry_handles_contains(es: Seq<(u64, Value)>, h: u64)
    ensures
        entry_handles(es).contains(h) <==> has_entry_handle(es, h),
    decreases es.len(),
{
    if es.len() > 0 {
        let init = es.drop_last();
        let e = es.last();
        lemma_entry_handles_contains(init, h);
        lemma_value_handles_contains(seq![e.1], h);
        let a = entry_handles(init);
        let b = value_handles(seq![e.1]);
        assert(entry_handles(es) == a + seq![e.0] + b);
        if entry_handles(es).contains(h) {
            let k = choose|k: int| 0 <= k < entry_handles(es).len() && entry_handles(es)[k] == h;
            if k < a.len() {
                assert(a[k] == h);
                assert(a.contains(h));
                let i = choose|i: int| 0 <= i < init.len() && #[trigger] entry_holds(init[i], h);
                assert(init[i] == es[i]);
                assert(entry_holds(es[i], h));
            } else if k == a.len() {
                assert(es[es.len() - 1] == e);
                assert(entry_holds(es[es.len() - 1], h));
            } else {
                assert(b[k - a.len() - 1] == h);
                assert(b.contains(h));
                let j = choose|j: int| 0 <= j < 1 && #[trigger] is_object_of(seq![e.1][j], h);
                assert(seq![e.1][j] == e.1);
                assert(es[es.len() - 1] == e);
                assert(entry_holds(es[es.len() - 1], h));
            }
        }
        if has_entry_handle(es, h) {
            let i = choose|i: int| 0 <= i < es.len() && #[trigger] entry_holds(es[i], h);
            if i < es.len() - 1 {
                assert(init[i] == es[i]);
                assert(entry_holds(init[i], h));
                assert(has_entry_handle(init, h));
                let k = choose|k: int| 0 <= k < a.len() && a[k] == h;
                assert(entry_handles(es)[k] == h);
            } else if e.0 == h {
                assert(entry_handles(es)[a.len() as int] == h);
            } else {
                assert(seq![e.1][0] == e.1);
                assert(is_object_of(seq![e.1][0], h));
                assert(has_object_value(seq![e.1], h));
                let k = choose|k: int| 0 <= k < b.len() && b[k] == h;
                assert(entry_handles(es)[a.len() + 1 + k] == h);
            }
        }
    }
}

/// The collector follows exactly what an object holds: a handle is among
/// the references of `obj` if and only if `obj` holds it in one of its
/// fields.
pub proof fn lemma_references_are_what_it_holds(obj: HeapObject, h: u64)
    ensures
        references_of(obj).contains(h) <==> holds(obj, h),
{
    match obj {
        HeapObject::Function { constants } => {
            lemma_value_handles_contains(constants@, h);
        },
        HeapObject::Closure { function, upvalues } => {
            let r = seq![function] + upvalues@;
            if r.contains(h) {
                let k = choose|k: int| 0 <= k < r.len() && r[k] == h;
                if k > 0 {
                    assert(upvalues@[k - 1] == h);
                }
            }
            if upvalues@.contains(h) {
                let k = choose|k: int| 0 <= k < upvalues@.len() && upvalues@[k] == h;
                assert(r[k + 1] == h);
            }
            if function == h {
                assert(r[0] == h);
            }
        },
        HeapObject::UpValue { value } => {
            lemma_value_handles_contains(seq![value], h);
            assert(seq![value][0] == value);
            if has_object_value(seq![value], h) {
                let i = choose|i: int| 0 <= i < 1 && #[trigger] is_object_of(seq![value][i], h);
            }
            if is_object_of(value, h) {
                assert(is_object_of(seq![value][0], h));
            }
        },
        HeapObject::Class { methods } => {
            lemma_entry_handles_contains(methods@, h);
        },
        HeapObject::Instance { class, fields } => {
            lemma_entry_handles_contains(fields@, h);
            let a = entry_handles(fields@);
            let r = seq![class] + a;
            if r.contains(h) {
                let k = choose|k: int| 0 <= k < r.len() && r[k] == h;
                if k > 0 {
                    assert(a[k - 1] == h);
                }
            }
            if a.contains(h) {
                let k = choose|k: int| 0 <= k < a.len() && a[k] == h;
                assert(r[k + 1] == h);
            }
            if class == h {
                assert(r[0] == h);
            }
        },
        HeapObject::BoundMethod { receiver, method } => {
            lemma_value_handles_contains(seq![receiver], h);
            assert(seq![receiver][0] == receiver);
            if has_object_value(seq![receiver], h) {
                let i = choose|i: int| 0 <= i < 1 && #[trigger] is_object_of(seq![receiver][i], h);
            }
            if is_object_of(receiver, h) {
                assert(is_object_of(seq![receiver][0], h));
            }
            let a = value_handles(seq![receiver]);
            let r = a + seq![method];
            if r.contains(h) {
                let k = choose|k: int| 0 <= k < r.len() && r[k] == h;
                if k < a.len() {
                    assert(a[k] == h);
                }
            }
            if a.contains(h) {
                let k = choose|k: int| 0 <= k < a.len() && a[k] == h;
                assert(r[k] == h);
            }
            if method == h {
                assert(r[a.len() as int] == h);
            }
        },
        _ => {},
    }
}

/// A closure keeps its function alive whatever it captures: the function
/// comes first among its references, followed by its upvalues in order.
pub proof fn lemma_closure_refers_to_its_function(function: u64, upvalues: Vec<u64>)
    ensures
        references_of(HeapObject::Closure { function, upvalues }).len() == upvalues@.len() + 1,
        references_of(HeapObject::Closure { function, upvalues })[0] == function,
        references_of(HeapObject::Closure { function, upvalues }).subrange(
            1,
            upvalues@.len() as int + 1,
        ) == upvalues@,
{
    assert((seq![function] + upvalues@).subrange(1, upvalues@.len() as int + 1) =~= upvalues@);
}

} // verus!
