//! Devices wired to one another: the number of paths that lead from one device
//! to another along the wires.
use crate::text::{
    chars_of, lines, nat_of, pieces_view, spec_lines, spec_split, spec_trim, split, trim,
};
use vstd::prelude::*;

verus! {

pub type NodeId = usize;

/// A wiring as a mathematical value: the names of the devices in the order in
/// which they were first seen, and for each device the devices that its wires
/// lead to and those that wires come from, each once.
pub struct GraphView {
    pub names: Seq<Seq<char>>,
    pub succ: Seq<Seq<usize>>,
    pub pred: Seq<Seq<usize>>,
}

/// The index of the first of the first `k` names that equals `name`, or `k`.
pub open spec fn find_name(names: Seq<Seq<char>>, name: Seq<char>, k: int) -> int
    decreases k,
{
    if k <= 0 {
        0
    } else {
        let i = find_name(names, name, k - 1);
        if i < k - 1 || names[k - 1] == name {
            i
        } else {
            k
        }
    }
}

/// `s` with `v` added unless it is there already.
pub open spec fn insert_unique(s: Seq<usize>, v: usize) -> Seq<usize> {
    if s.contains(v) {
        s
    } else {
        s.push(v)
    }
}

impl GraphView {
    /// The wiring without devices.
    pub open spec fn empty() -> GraphView {
        GraphView { names: Seq::empty(), succ: Seq::empty(), pred: Seq::empty() }
    }

    /// Whether every device has its lists of wires, and every wire leads to a
    /// device.
    pub open spec fn wf(self) -> bool {
        &&& self.succ.len() == self.names.len()
        &&& self.pred.len() == self.names.len()
        &&& forall|i: int, k: int|
            0 <= i < self.succ.len() && 0 <= k < self.succ[i].len() ==> #[trigger] self.succ[i][k]
                < self.names.len()
        &&& forall|i: int, k: int|
            0 <= i < self.pred.len() && 0 <= k < self.pred[i].len() ==> #[trigger] self.pred[i][k]
                < self.names.len()
    }

    /// The id of the device `name`; the number of devices when there is none
    /// of this name.
    pub open spec fn id_of(self, name: Seq<char>) -> int {
        find_name(self.names, name, self.names.len() as int)
    }

    /// Whether there is a device `name`.
    pub open spec fn has(self, name: Seq<char>) -> bool {
        self.id_of(name) < self.names.len()
    }

    /// The wiring with the device `name`, added without wires unless it is
    /// there already.
    pub open spec fn with_node(self, name: Seq<char>) -> GraphView {
        if self.has(name) {
            self
        } else {
            GraphView {
                names: self.names.push(name),
                succ: self.succ.push(Seq::empty()),
                pred: self.pred.push(Seq::empty()),
            }
        }
    }

    /// The wiring with a wire from the device `from` to the device `to`.
    pub open spec fn with_edge(self, from: int, to: int) -> GraphView {
        GraphView {
            names: self.names,
            succ: self.succ.update(from, insert_unique(self.succ[from], to as usize)),
            pred: self.pred.update(to, insert_unique(self.pred[to], from as usize)),
        }
    }

    /// The wiring with wires from the device with id `from` to the first `k`
    /// of the named devices, which are added where they are new.
    pub open spec fn with_edges_from(self, from: int, tos: Seq<Seq<char>>, k: int) -> GraphView
        decreases k,
    {
        if k <= 0 {
            self
        } else {
            let g = self.with_edges_from(from, tos, k - 1).with_node(tos[k - 1]);
            g.with_edge(from, g.id_of(tos[k - 1]))
        }
    }

    /// The wiring with wires from the device `from` to the named devices; all
    /// of them are added where they are new, `from` first.
    pub open spec fn with_edges(self, from: Seq<char>, tos: Seq<Seq<char>>) -> GraphView {
        let g = self.with_node(from);
        g.with_edges_from(g.id_of(from), tos, tos.len() as int)
    }
}

/// The search finds a name within the first `k`, or answers `k`.
pub proof fn lemma_find_name(names: Seq<Seq<char>>, name: Seq<char>, k: int)
    requires
        0 <= k <= names.len(),
    ensures
        0 <= find_name(names, name, k) <= k,
        find_name(names, name, k) < k ==> names[find_name(names, name, k)] == name,
        forall|i: int| 0 <= i < find_name(names, name, k) ==> names[i] != name,
    decreases k,
{
    if k > 0 {
        lemma_find_name(names, name, k - 1);
    }
}

/// A name that is found among the first `k` names is found at the same place
/// among more.
pub proof fn lemma_find_name_stable(names: Seq<Seq<char>>, name: Seq<char>, k: int, n: int)
    requires
        0 <= k <= n <= names.len(),
        find_name(names, name, k) < k,
    ensures
        find_name(names, name, n) == find_name(names, name, k),
    decreases n - k,
{
    if k < n {
        lemma_find_name_stable(names, name, k, n - 1);
    }
}

/// Adding a name at the end changes nothing for the names before it.
pub proof fn lemma_find_name_push(names: Seq<Seq<char>>, extra: Seq<char>, name: Seq<char>, k: int)
    requires
        0 <= k <= names.len(),
    ensures
        find_name(names.push(extra), name, k) == find_name(names, name, k),
    decreases k,
{
    if k > 0 {
        lemma_find_name_push(names, extra, name, k - 1);
    }
}

/// The wiring of devices. Devices are known by the order in which they were
/// first named.
pub struct DAG {
    nodes: Vec<Vec<char>>,
    edges: Vec<Vec<NodeId>>,
    reverse_edges: Vec<Vec<NodeId>>,
}

/// The views of a vector of lists of ids, list by list.
pub open spec fn lists_view(v: Seq<Vec<usize>>) -> Seq<Seq<usize>> {
    Seq::new(v.len(), |i: int| v[i]@)
}

impl View for DAG {
    type V = GraphView;

    closed spec fn view(&self) -> GraphView {
        GraphView {
            names: pieces_view(self.nodes@),
            succ: lists_view(self.edges@),
            pred: lists_view(self.reverse_edges@),
        }
    }
}

/// Whether the two vectors hold the same characters.
pub fn same_chars(a: &Vec<char>, b: &Vec<char>) -> (r: bool)
    ensures
        r == (a@ == b@),
{
    if a.len() != b.len() {
        return false;
    }
    let mut i: usize = 0;
    while i < a.len()
        invariant
            0 <= i <= a.len(),
            a.len() == b.len(),
            forall|k: int| 0 <= k < i ==> a[k] == b[k],
        decreases a.len() - i,
    {
        if a[i] != b[i] {
            return false;
        }
        i += 1;
    }
    assert(a@ =~= b@);
    true
}

/// A copy of the list with `v` added unless it is there already.
fn with_unique(list: &Vec<usize>, v: usize) -> (r: Vec<usize>)
    ensures
        r@ == insert_unique(list@, v),
{
    let mut out: Vec<usize> = Vec::new();
    let mut found = false;
    let mut i: usize = 0;
    while i < list.len()
        invariant
            0 <= i <= list.len(),
            out@ == list@.take(i as int),
            found == list@.take(i as int).contains(v),
        decreases list.len() - i,
    {
        proof {
            let t = list@.take(i as int);
            assert(list@.take(i + 1) == t.push(list[i as int]));
            if t.contains(v) {
                let k = choose|k: int| 0 <= k < t.len() && t[k] == v;
                assert(t.push(list[i as int])[k] == v);
            }
            if list[i as int] == v {
                assert(t.push(list[i as int])[i as int] == v);
            }
        }
        if list[i] == v {
            found = true;
        }
        out.push(list[i]);
        i += 1;
    }
    assert(list@.take(i as int) == list@);
    if !found {
        out.push(v);
    }
    out
}

impl DAG {
    /// A wiring without devices.
    pub fn new() -> (g: DAG)
        ensures
            g@ == GraphView::empty(),
            g@.wf(),
    {
        let g = DAG { nodes: Vec::new(), edges: Vec::new(), reverse_edges: Vec::new() };
        assert(g@.names =~= Seq::<Seq<char>>::empty());
        assert(g@.succ =~= Seq::<Seq<usize>>::empty());
        assert(g@.pred =~= Seq::<Seq<usize>>::empty());
        g
    }

    /// The number of devices.
    pub fn node_count(&self) -> (n: usize)
        ensures
            n == self@.names.len(),
    {
        self.nodes.len()
    }

    /// The id of the device `name`, if there is one.
    pub fn find(&self, name: &Vec<char>) -> (r: Option<NodeId>)
        ensures
            r is Some <==> self@.has(name@),
            r is Some ==> r->Some_0 == self@.id_of(name@),
    {
        let ghost names = pieces_view(self.nodes@);
        let mut i: usize = 0;
        while i < self.nodes.len()
            invariant
                0 <= i <= self.nodes.len(),
                names == pieces_view(self.nodes@),
                find_name(names, name@, i as int) == i,
            decreases self.nodes.len() - i,
        {
            assert(names[i as int] == self.nodes[i as int]@);
            if same_chars(&self.nodes[i], name) {
                proof {
                    lemma_find_name_stable(names, name@, i + 1, names.len() as int);
                }
                return Some(i);
            }
            i += 1;
        }
        None
    }

    /// The id of the device `name`, which is added unless it is there already.
    pub fn get_or_create_node(&mut self, name: &Vec<char>) -> (id: NodeId)
        requires
            old(self)@.wf(),
        ensures
            final(self)@ == old(self)@.with_node(name@),
            final(self)@.wf(),
            id == final(self)@.id_of(name@),
            id < final(self)@.names.len(),
    {
        if let Some(id) = self.find(name) {
            id
        } else {
            let id = self.nodes.len();
            let ghost before = self@;
            let mut own: Vec<char> = Vec::new();
            let mut k: usize = 0;
            while k < name.len()
                invariant
                    0 <= k <= name.len(),
                    own@ == name@.take(k as int),
                decreases name.len() - k,
            {
                own.push(name[k]);
                proof {
                    assert(name@.take(k + 1) == name@.take(k as int).push(name[k as int]));
                }
                k += 1;
            }
            assert(name@.take(k as int) == name@);
            self.nodes.push(own);
            self.edges.push(Vec::new());
            self.reverse_edges.push(Vec::new());
            proof {
                assert(self@.names =~= before.names.push(name@));
                assert(self@.succ =~= before.succ.push(Seq::empty()));
                assert(self@.pred =~= before.pred.push(Seq::empty()));
                lemma_find_name_push(before.names, name@, name@, before.names.len() as int);
                lemma_find_name(before.names, name@, before.names.len() as int);
            }
            id
        }
    }

    /// Adds the wire from the device with id `from_id` to that with id `to_id`.
    fn connect(&mut self, from_id: NodeId, to_id: NodeId)
        requires
            old(self)@.wf(),
            from_id < old(self)@.names.len(),
            to_id < old(self)@.names.len(),
        ensures
            final(self)@ == old(self)@.with_edge(from_id as int, to_id as int),
            final(self)@.wf(),
    {
        let ghost before = self@;
        let succ = with_unique(&self.edges[from_id], to_id);
        self.edges.set(from_id, succ);
        let pred = with_unique(&self.reverse_edges[to_id], from_id);
        self.reverse_edges.set(to_id, pred);
        proof {
            let after = before.with_edge(from_id as int, to_id as int);
            assert(self@.succ =~= after.succ);
            assert(self@.pred =~= after.pred);
            assert(self@.names == after.names);
            assert forall|i: int, k: int|
                0 <= i < after.succ.len() && 0 <= k < after.succ[i].len() implies #[trigger] after.succ[i][k]
                < after.names.len() by {
                if i == from_id && k == before.succ[i].len() {
                } else {
                    assert(after.succ[i][k] == before.succ[i][k]);
                }
            }
            assert forall|i: int, k: int|
                0 <= i < after.pred.len() && 0 <= k < after.pred[i].len() implies #[trigger] after.pred[i][k]
                < after.names.len() by {
                if i == to_id && k == before.pred[i].len() {
                } else {
                    assert(after.pred[i][k] == before.pred[i][k]);
                }
            }
        }
    }

    /// Adds a wire from the device `from` to the device `to`; both are added
    /// where they are new.
    pub fn _add_edge(&mut self, from: &Vec<char>, to: &Vec<char>)
        requires
            old(self)@.wf(),
        ensures
            final(self)@ == old(self)@.with_edges(from@, seq![to@]),
            final(self)@.wf(),
    {
        let ghost before = self@;
        let from_id = self.get_or_create_node(from);
        let ghost g0 = self@;
        let to_id = self.get_or_create_node(to);
        proof {
            lemma_id_kept(g0, from@, to@);
            assert(g0.with_edges_from(from_id as int, seq![to@], 0) == g0);
        }
        self.connect(from_id, to_id);
    }

    /// Adds wires from the device `from` to each of the named devices; all of
    /// them are added where they are new.
    pub fn add_edges(&mut self, from: &Vec<char>, to_iter: &Vec<Vec<char>>)
        requires
            old(self)@.wf(),
        ensures
            final(self)@ == old(self)@.with_edges(from@, pieces_view(to_iter@)),
            final(self)@.wf(),
    {
        let from_id = self.get_or_create_node(from);
        let ghost g0 = self@;
        let ghost tos = pieces_view(to_iter@);
        let mut k: usize = 0;
        while k < to_iter.len()
            invariant
                0 <= k <= to_iter.len(),
                tos == pieces_view(to_iter@),
                g0.wf(),
                from_id == g0.id_of(from@),
                from_id < g0.names.len(),
                self@ == g0.with_edges_from(from_id as int, tos, k as int),
                self@.wf(),
                from_id < self@.names.len(),
            decreases to_iter.len() - k,
        {
            assert(tos[k as int] == to_iter[k as int]@);
            let to_id = self.get_or_create_node(&to_iter[k]);
            self.connect(from_id, to_id);
            k += 1;
        }
    }

    /// The devices that the wires of the device lead to.
    pub fn _successors(&self, node_id: NodeId) -> (r: &Vec<NodeId>)
        requires
            self@.wf(),
            node_id < self@.names.len(),
        ensures
            r@ == self@.succ[node_id as int],
    {
        &self.edges[node_id]
    }

    /// The devices from which wires lead to the device.
    pub fn _predecessors(&self, node_id: NodeId) -> (r: &Vec<NodeId>)
        requires
            self@.wf(),
            node_id < self@.names.len(),
        ensures
            r@ == self@.pred[node_id as int],
    {
        &self.reverse_edges[node_id]
    }
}

/// A device keeps its id when another is added.
pub proof fn lemma_id_kept(g: GraphView, name: Seq<char>, other: Seq<char>)
    requires
        g.has(name),
    ensures
        g.with_node(other).id_of(name) == g.id_of(name),
        g.with_node(other).has(name),
{
    if !g.has(other) {
        let n = g.names.len() as int;
        lemma_find_name_push(g.names, other, name, n);
        lemma_find_name_stable(g.names.push(other), name, n, n + 1);
    }
}

/// What a line says: the device before the colon, and the devices after it,
/// separated by single spaces. `None` for a line without exactly one colon.
pub open spec fn line_wires(line: Seq<char>) -> Option<(Seq<char>, Seq<Seq<char>>)> {
    let parts = spec_split(line, ':');
    if parts.len() == 2 {
        Some((spec_trim(parts[0]), spec_split(spec_trim(parts[1]), ' ')))
    } else {
        None
    }
}

/// The wiring that the first `k` lines describe. Lines without exactly one
/// colon are passed over.
pub open spec fn wiring_upto(lines: Seq<Seq<char>>, k: int) -> GraphView
    decreases k,
{
    if k <= 0 {
        GraphView::empty()
    } else {
        let g = wiring_upto(lines, k - 1);
        match line_wires(lines[k - 1]) {
            Some((from, tos)) => g.with_edges(from, tos),
            None => g,
        }
    }
}

/// The wiring that a text describes, one device per line.
pub open spec fn spec_wiring(input: Seq<char>) -> GraphView {
    wiring_upto(spec_lines(input), spec_lines(input).len() as int)
}

impl DAG {
    /// Reads a wiring: each line names a device, a colon, and the devices that
    /// its wires lead to.
    pub fn from_str(s: &str) -> (g: DAG)
        ensures
            g@ == spec_wiring(s@),
            g@.wf(),
    {
        let chars = chars_of(s);
        let ls = lines(&chars);
        let ghost all = spec_lines(s@);
        let mut dag = DAG::new();
        let mut i: usize = 0;
        while i < ls.len()
            invariant
                0 <= i <= ls.len(),
                pieces_view(ls@) == all,
                dag@ == wiring_upto(all, i as int),
                dag@.wf(),
            decreases ls.len() - i,
        {
            assert(all[i as int] == ls[i as int]@);
            let parts = split(&ls[i], ':');
            assert(pieces_view(parts@).len() == parts.len());
            if parts.len() == 2 {
                assert(pieces_view(parts@)[0] == parts[0]@);
                assert(pieces_view(parts@)[1] == parts[1]@);
                let from = trim(&parts[0]);
                let to_nodes = split(&trim(&parts[1]), ' ');
                dag.add_edges(&from, &to_nodes);
            }
            i += 1;
        }
        dag
    }
}

/// The number of devices that are not marked.
pub open spec fn unvisited(visited: Seq<bool>) -> nat
    decreases visited.len(),
{
    if visited.len() == 0 {
        0
    } else {
        unvisited(visited.drop_last()) + if visited.last() {
            0nat
        } else {
            1nat
        }
    }
}

/// Marking a device leaves one device less unmarked.
pub proof fn lemma_unvisited_mark(visited: Seq<bool>, i: int)
    requires
        0 <= i < visited.len(),
        !visited[i],
    ensures
        unvisited(visited.update(i, true)) + 1 == unvisited(visited),
    decreases visited.len(),
{
    let marked = visited.update(i, true);
    if i == visited.len() - 1 {
        assert(marked.drop_last() == visited.drop_last());
    } else {
        lemma_unvisited_mark(visited.drop_last(), i);
        assert(marked.drop_last() == visited.drop_last().update(i, true));
    }
}

/// The paths that lead from the device `cur` to the device `target` without
/// passing a marked device or any device twice, each with `prefix` before it.
/// They stand in the order in which a search finds them that follows the wires
/// of each device in their order.
pub open spec fn paths_from(
    g: GraphView,
    cur: int,
    target: int,
    visited: Seq<bool>,
    prefix: Seq<usize>,
) -> Seq<Seq<usize>>
    decreases unvisited(visited), 0nat, 0nat,
{
    if !(0 <= cur < visited.len()) || visited[cur] {
        Seq::empty()
    } else if cur == target {
        seq![prefix.push(cur as usize)]
    } else {
        proof {
            lemma_unvisited_mark(visited, cur);
        }
        paths_via(
            g,
            cur,
            target,
            visited.update(cur, true),
            prefix.push(cur as usize),
            if 0 <= cur < g.succ.len() {
                g.succ[cur].len()
            } else {
                0
            },
        )
    }
}

/// The paths that go on from the device `cur` along one of its first `k`
/// wires; `visited` marks `cur` and what came before it, `prefix` ends in
/// `cur`.
pub open spec fn paths_via(
    g: GraphView,
    cur: int,
    target: int,
    visited: Seq<bool>,
    prefix: Seq<usize>,
    k: nat,
) -> Seq<Seq<usize>>
    decreases unvisited(visited), 1nat, k,
{
    if k == 0 || !(0 <= cur < g.succ.len()) || k > g.succ[cur].len() {
        Seq::empty()
    } else {
        paths_via(g, cur, target, visited, prefix, (k - 1) as nat) + paths_from(
            g,
            g.succ[cur][k - 1] as int,
            target,
            visited,
            prefix,
        )
    }
}

/// All paths from `start` to `end` that pass no device twice.
pub open spec fn spec_all_paths(g: GraphView, start: int, end: int) -> Seq<Seq<usize>> {
    paths_from(g, start, end, Seq::new(g.names.len(), |i: int| false), Seq::empty())
}

impl DAG {
    /// All paths from `start` to `end` that pass no device twice.
    pub fn all_paths(&self, start: NodeId, end: NodeId) -> (r: Vec<Vec<NodeId>>)
        requires
            self@.wf(),
            start < self@.names.len(),
        ensures
            lists_view(r@) == spec_all_paths(self@, start as int, end as int),
    {
        let mut paths: Vec<Vec<NodeId>> = Vec::new();
        let mut current_path: Vec<NodeId> = Vec::new();
        let mut visited: Vec<bool> = Vec::new();
        let n = self.nodes.len();
        while visited.len() < n
            invariant
                visited.len() <= n,
                forall|i: int| 0 <= i < visited.len() ==> !visited[i],
            decreases n - visited.len(),
        {
            visited.push(false);
        }
        assert(visited@ =~= Seq::new(self@.names.len(), |i: int| false));
        assert(lists_view(paths@) =~= Seq::<Seq<usize>>::empty());
        self.find_all_paths(start, end, &mut visited, &mut current_path, &mut paths);
        paths
    }

    /// Appends to `all_paths` the paths that lead from `current` to `target`
    /// without passing a marked device or any device twice, each with `path`
    /// before it. `visited` and `path` are left as they were.
    pub fn find_all_paths(
        &self,
        current: NodeId,
        target: NodeId,
        visited: &mut Vec<bool>,
        path: &mut Vec<NodeId>,
        all_paths: &mut Vec<Vec<NodeId>>,
    )
        requires
            self@.wf(),
            current < self@.names.len(),
            old(visited).len() == self@.names.len(),
            !old(visited)[current as int],
        ensures
            final(visited)@ == old(visited)@,
            final(path)@ == old(path)@,
            lists_view(final(all_paths)@) == lists_view(old(all_paths)@) + paths_from(
                self@,
                current as int,
                target as int,
                old(visited)@,
                old(path)@,
            ),
        decreases unvisited(old(visited)@),
    {
        let ghost g = self@;
        let ghost visited0 = visited@;
        let ghost path0 = path@;
        let ghost found0 = lists_view(all_paths@);
        visited.set(current, true);
        path.push(current);
        let ghost marked = visited@;
        let ghost prefix = path@;
        proof {
            lemma_unvisited_mark(visited0, current as int);
        }
        if current == target {
            let mut copy: Vec<NodeId> = Vec::new();
            let mut k: usize = 0;
            while k < path.len()
                invariant
                    0 <= k <= path.len(),
                    copy@ == path@.take(k as int),
                decreases path.len() - k,
            {
                copy.push(path[k]);
                proof {
                    assert(path@.take(k + 1) == path@.take(k as int).push(path[k as int]));
                }
                k += 1;
            }
            assert(path@.take(k as int) == path@);
            all_paths.push(copy);
            assert(lists_view(all_paths@) =~= found0 + seq![prefix]);
        } else {
            let degree = self.edges[current].len();
            assert(g.succ[current as int] == self.edges[current as int]@);
            let mut k: usize = 0;
            assert(found0 + Seq::<Seq<usize>>::empty() =~= found0);
            while k < degree
                invariant
                    0 <= k <= degree,
                    g == self@,
                    g.wf(),
                    current < g.names.len(),
                    current != target,
                    degree == g.succ[current as int].len(),
                    g.succ[current as int] == self.edges[current as int]@,
                    visited@ == marked,
                    marked.len() == g.names.len(),
                    path@ == prefix,
                    unvisited(marked) < unvisited(visited0),
                    visited0 == old(visited)@,
                    lists_view(all_paths@) == found0 + paths_via(
                        g,
                        current as int,
                        target as int,
                        marked,
                        prefix,
                        k as nat,
                    ),
                decreases degree - k,
            {
                let neighbor = self.edges[current][k];
                let ghost found = lists_view(all_paths@);
                if !visited[neighbor] {
                    self.find_all_paths(neighbor, target, visited, path, all_paths);
                }
                proof {
                    let more = paths_from(g, neighbor as int, target as int, marked, prefix);
                    let via = paths_via(g, current as int, target as int, marked, prefix, k as nat);
                    assert((found0 + via) + more =~= found0 + (via + more));
                    assert(found + Seq::<Seq<usize>>::empty() =~= found);
                }
                k += 1;
            }
        }
        path.pop();
        visited.set(current, false);
        proof {
            assert(path@ =~= path0);
            assert(visited@ =~= visited0);
        }
    }
}

/// The number of ways to get from the device `cur` to the device `target`
/// along the wires in at most `fuel` steps, when no way takes more steps than
/// that; `None` when some way does, or when a count exceeds `usize`.
pub open spec fn count_within(g: GraphView, cur: int, target: int, fuel: nat) -> Option<nat>
    decreases fuel, 0nat, 0nat,
{
    if cur == target {
        Some(1)
    } else if !(0 <= cur < g.succ.len()) {
        Some(0)
    } else if fuel == 0 {
        None
    } else {
        sum_within(g, cur, target, (fuel - 1) as nat, g.succ[cur].len())
    }
}

/// The sum of the counts for the devices that the first `k` wires of `cur`
/// lead to.
pub open spec fn sum_within(g: GraphView, cur: int, target: int, fuel: nat, k: nat) -> Option<nat>
    decreases fuel, 1nat, k,
{
    if k == 0 || !(0 <= cur < g.succ.len()) || k > g.succ[cur].len() {
        Some(0)
    } else {
        match (
            sum_within(g, cur, target, fuel, (k - 1) as nat),
            count_within(g, g.succ[cur][k - 1] as int, target, fuel),
        ) {
            (Some(t), Some(v)) if t + v <= usize::MAX => Some(t + v),
            _ => None,
        }
    }
}

/// A count that was reached within some number of steps stays the same when
/// more steps are allowed.
pub proof fn lemma_count_stable(g: GraphView, cur: int, target: int, f: nat, f2: nat)
    requires
        f <= f2,
        count_within(g, cur, target, f) is Some,
    ensures
        count_within(g, cur, target, f2) == count_within(g, cur, target, f),
    decreases f, 0nat, 0nat,
{
    if cur != target && 0 <= cur < g.succ.len() {
        lemma_sum_stable(g, cur, target, (f - 1) as nat, (f2 - 1) as nat, g.succ[cur].len());
    }
}

/// A sum that was reached within some number of steps stays the same when
/// more steps are allowed.
pub proof fn lemma_sum_stable(g: GraphView, cur: int, target: int, f: nat, f2: nat, k: nat)
    requires
        f <= f2,
        sum_within(g, cur, target, f, k) is Some,
    ensures
        sum_within(g, cur, target, f2, k) == sum_within(g, cur, target, f, k),
    decreases f, 1nat, k,
{
    if !(k == 0 || !(0 <= cur < g.succ.len()) || k > g.succ[cur].len()) {
        lemma_sum_stable(g, cur, target, f, f2, (k - 1) as nat);
        lemma_count_stable(g, g.succ[cur][k - 1] as int, target, f, f2);
    }
}

/// Where there is no count within some number of steps, there is none within
/// fewer.
pub proof fn lemma_count_none_below(g: GraphView, cur: int, target: int, f: nat, f2: nat)
    requires
        f <= f2,
        count_within(g, cur, target, f2) is None,
    ensures
        count_within(g, cur, target, f) is None,
{
    if count_within(g, cur, target, f) is Some {
        lemma_count_stable(g, cur, target, f, f2);
    }
}

/// Once a sum fails, it fails for more wires too.
pub proof fn lemma_sum_none_stays(g: GraphView, cur: int, target: int, f: nat, k: nat, n: nat)
    requires
        0 <= cur < g.succ.len(),
        k <= n <= g.succ[cur].len(),
        sum_within(g, cur, target, f, k) is None,
    ensures
        sum_within(g, cur, target, f, n) is None,
    decreases n - k,
{
    if k < n {
        lemma_sum_none_stays(g, cur, target, f, k, (n - 1) as nat);
    }
}

/// Whether `v` is the number of ways from `cur` to `target` and `d` the least
/// number of steps within which it is reached.
pub open spec fn settled(g: GraphView, cur: int, target: int, v: nat, d: nat) -> bool {
    &&& count_within(g, cur, target, d) == Some(v)
    &&& d == 0 || count_within(g, cur, target, (d - 1) as nat) is None
}

/// Whether every entry of the table holds the number of ways from its device
/// to `target`, with the least number of steps that it takes.
pub open spec fn memo_valid(g: GraphView, target: int, memo: Seq<Option<(usize, usize)>>) -> bool {
    forall|i: int|
        0 <= i < memo.len() && (#[trigger] memo[i]) is Some ==> settled(
            g,
            i,
            target,
            memo[i]->Some_0.0 as nat,
            memo[i]->Some_0.1 as nat,
        )
}

impl DAG {
    /// The number of ways from `current` to `target` within `fuel` steps, with
    /// the least number of steps that it takes: looked up in the table, or
    /// counted along the wires and then put into the table.
    pub fn count_all_paths(
        &self,
        current: NodeId,
        target: NodeId,
        memo: &mut Vec<Option<(usize, usize)>>,
        fuel: usize,
    ) -> (r: Option<(usize, usize)>)
        requires
            self@.wf(),
            current < self@.names.len(),
            old(memo).len() == self@.names.len(),
            memo_valid(self@, target as int, old(memo)@),
        ensures
            final(memo).len() == self@.names.len(),
            memo_valid(self@, target as int, final(memo)@),
            match r {
                Some((v, d)) => d <= fuel && settled(
                    self@,
                    current as int,
                    target as int,
                    v as nat,
                    d as nat,
                ),
                None => count_within(self@, current as int, target as int, fuel as nat) is None,
            },
        decreases fuel,
    {
        let ghost g = self@;
        let ghost t = target as int;
        let ghost cur = current as int;
        if current == target {
            return Some((1, 0));
        }
        if let Some((count, depth)) = memo[current] {
            if depth <= fuel {
                return Some((count, depth));
            }
            proof {
                lemma_count_none_below(g, cur, t, fuel as nat, (depth - 1) as nat);
            }
            return None;
        }
        if fuel == 0 {
            return None;
        }
        let degree = self.edges[current].len();
        assert(g.succ[cur] == self.edges[cur]@);
        let ghost limit = (fuel - 1) as nat;
        let mut total_paths: usize = 0;
        let mut deepest: usize = 0;
        let mut k: usize = 0;
        while k < degree
            invariant
                0 <= k <= degree,
                g == self@,
                g.wf(),
                t == target,
                cur == current,
                current != target,
                fuel > 0,
                limit == fuel - 1,
                current < g.names.len(),
                degree == g.succ[cur].len(),
                g.succ[cur] == self.edges[cur]@,
                memo.len() == g.names.len(),
                memo_valid(g, t, memo@),
                deepest <= limit,
                sum_within(g, cur, t, limit, k as nat) == Some(total_paths as nat),
                sum_within(g, cur, t, deepest as nat, k as nat) == Some(total_paths as nat),
                deepest == 0 || sum_within(g, cur, t, (deepest - 1) as nat, k as nat) is None,
            decreases degree - k,
        {
            let neighbor = self.edges[current][k];
            let (count, depth) = match self.count_all_paths(neighbor, target, memo, fuel - 1) {
                Some(found) => found,
                None => {
                    proof {
                        assert(sum_within(g, cur, t, limit, (k + 1) as nat) is None);
                        lemma_sum_none_stays(g, cur, t, limit, (k + 1) as nat, degree as nat);
                    }
                    return None;
                },
            };
            let deeper = if depth > deepest {
                depth
            } else {
                deepest
            };
            proof {
                let nb = neighbor as int;
                lemma_count_stable(g, nb, t, depth as nat, limit);
                lemma_count_stable(g, nb, t, depth as nat, deeper as nat);
                lemma_sum_stable(g, cur, t, deepest as nat, deeper as nat, k as nat);
            }
            total_paths = match total_paths.checked_add(count) {
                Some(s) => s,
                None => {
                    proof {
                        assert(sum_within(g, cur, t, limit, (k + 1) as nat) is None);
                        lemma_sum_none_stays(g, cur, t, limit, (k + 1) as nat, degree as nat);
                    }
                    return None;
                },
            };
            proof {
                if deeper > 0 {
                    assert(sum_within(g, cur, t, (deeper - 1) as nat, (k + 1) as nat) is None);
                }
            }
            deepest = deeper;
            k += 1;
        }
        memo.set(current, Some((total_paths, deepest + 1)));
        Some((total_paths, deepest + 1))
    }

    /// The number of ways from `start` to `end` along the wires. `None` when
    /// some way from `start` takes as many steps as there are devices without
    /// reaching `end`, which shows that the wiring leads round in a circle, or
    /// when a count exceeds `usize`.
    pub fn total_paths(&self, start: NodeId, end: NodeId) -> (r: Option<usize>)
        requires
            self@.wf(),
            start < self@.names.len(),
        ensures
            nat_of(r) == count_within(self@, start as int, end as int, self@.names.len()),
    {
        let n = self.nodes.len();
        let mut memo: Vec<Option<(usize, usize)>> = Vec::new();
        while memo.len() < n
            invariant
                memo.len() <= n,
                forall|i: int| 0 <= i < memo.len() ==> memo[i] is None,
            decreases n - memo.len(),
        {
            memo.push(None);
        }
        match self.count_all_paths(start, end, &mut memo, n) {
            Some((count, depth)) => {
                proof {
                    lemma_count_stable(self@, start as int, end as int, depth as nat, n as nat);
                }
                Some(count)
            },
            None => None,
        }
    }
}

/// The number of paths from the device `you` to the device `out` that pass
/// no device twice; `None` when one of the two is missing.
pub open spec fn spec_part1(input: Seq<char>) -> Option<nat> {
    let g = spec_wiring(input);
    if g.has("you"@) && g.has("out"@) {
        Some(spec_all_paths(g, g.id_of("you"@), g.id_of("out"@)).len())
    } else {
        None
    }
}

/// The number of paths from `you` to `out`.
pub fn part1(input: &str) -> (r: Option<usize>)
    ensures
        nat_of(r) == spec_part1(input@),
{
    let cables = DAG::from_str(input);
    let me = match cables.find(&chars_of("you")) {
        Some(id) => id,
        None => {
            return None;
        },
    };
    let out = match cables.find(&chars_of("out")) {
        Some(id) => id,
        None => {
            return None;
        },
    };
    let paths = cables.all_paths(me, out);
    assert(lists_view(paths@).len() == paths.len());
    Some(paths.len())
}

/// The product of three counts, taken from the left; `None` when a count is
/// missing or a product exceeds `usize`.
pub open spec fn product3(x: Option<nat>, y: Option<nat>, z: Option<nat>) -> Option<nat> {
    match (x, y, z) {
        (Some(x), Some(y), Some(z)) if x * y <= usize::MAX && x * y * z <= usize::MAX => Some(
            x * y * z,
        ),
        _ => None,
    }
}

/// The number of routes from `a` over `b` and `c` to `d`: the product of the
/// numbers of ways of the three legs, none followed for more than `n` steps.
pub open spec fn route_within(g: GraphView, a: int, b: int, c: int, d: int, n: nat) -> Option<nat> {
    product3(count_within(g, a, b, n), count_within(g, b, c, n), count_within(g, c, d, n))
}

impl DAG {
    /// The number of routes from `a` over `b` and `c` to `d`.
    pub fn routes(&self, a: NodeId, b: NodeId, c: NodeId, d: NodeId) -> (r: Option<usize>)
        requires
            self@.wf(),
            a < self@.names.len(),
            b < self@.names.len(),
            c < self@.names.len(),
        ensures
            nat_of(r) == route_within(
                self@,
                a as int,
                b as int,
                c as int,
                d as int,
                self@.names.len(),
            ),
    {
        let x = self.total_paths(a, b);
        let y = self.total_paths(b, c);
        let z = self.total_paths(c, d);
        match (x, y, z) {
            (Some(x), Some(y), Some(z)) => {
                let xy = match x.checked_mul(y) {
                    Some(p) => p,
                    None => {
                        return None;
                    },
                };
                xy.checked_mul(z)
            },
            _ => None,
        }
    }
}

/// Whether the wiring has the four devices that the routes are asked for.
pub open spec fn has_route_devices(g: GraphView) -> bool {
    g.has("svr"@) && g.has("out"@) && g.has("dac"@) && g.has("fft"@)
}

/// The number of routes from `svr` to `out` that pass `dac` and `fft`, in
/// either order. `None` when one of the four devices is missing, when a leg
/// has no count within as many steps as there are devices, or when a number
/// exceeds `usize`.
pub open spec fn spec_part2(input: Seq<char>) -> Option<nat> {
    let g = spec_wiring(input);
    let svr = g.id_of("svr"@);
    let out = g.id_of("out"@);
    let dac = g.id_of("dac"@);
    let fft = g.id_of("fft"@);
    let n = g.names.len();
    if !has_route_devices(g) {
        None
    } else {
        match (route_within(g, svr, dac, fft, out, n), route_within(g, svr, fft, dac, out, n)) {
            (Some(first), Some(second)) if first + second <= usize::MAX => Some(first + second),
            _ => None,
        }
    }
}

/// The number of routes from `svr` to `out` that pass both `dac` and `fft`.
pub fn part2(input: &str) -> (r: Option<usize>)
    ensures
        nat_of(r) == spec_part2(input@),
{
    let cables = DAG::from_str(input);
    let serv = match cables.find(&chars_of("svr")) {
        Some(id) => id,
        None => {
            return None;
        },
    };
    let out = match cables.find(&chars_of("out")) {
        Some(id) => id,
        None => {
            return None;
        },
    };
    let digital_to_analog_converter = match cables.find(&chars_of("dac")) {
        Some(id) => id,
        None => {
            return None;
        },
    };
    let fast_fourier_transform = match cables.find(&chars_of("fft")) {
        Some(id) => id,
        None => {
            return None;
        },
    };
    let first_routes = cables.routes(
        serv,
        digital_to_analog_converter,
        fast_fourier_transform,
        out,
    );
    let second_routes = cables.routes(
        serv,
        fast_fourier_transform,
        digital_to_analog_converter,
        out,
    );
    match (first_routes, second_routes) {
        (Some(first), Some(second)) => first.checked_add(second),
        _ => None,
    }
}

} // verus!
