use vstd::prelude::*;

verus! {

/// How often `x` occurs in `s`.
pub open spec fn occurrences(s: Seq<usize>, x: usize) -> nat
    decreases s.len(),
{
    if s.len() == 0 {
        0
    } else {
        occurrences(s.drop_last(), x) + if s.last() == x {
            1nat
        } else {
            0nat
        }
    }
}

/// The contents of each list.
pub open spec fn lists_view(v: Seq<Vec<usize>>) -> Seq<Seq<usize>> {
    v.map_values(|l: Vec<usize>| l@)
}

/// The lists after an edge between `from` and `to`: `to` joins the list of
/// `from`, then `from` joins the list of `to`.
pub open spec fn with_edge(lists: Seq<Seq<usize>>, from: int, to: int) -> Seq<Seq<usize>> {
    let a = lists.update(from, lists[from].push(to as usize));
    a.update(to, a[to].push(from as usize))
}

proof fn lemma_occurrences_push(s: Seq<usize>, y: usize, x: usize)
    ensures
        occurrences(s.push(y), x) == occurrences(s, x) + if y == x {
            1nat
        } else {
            0nat
        },
{
    assert(s.push(y).drop_last() =~= s);
}

/// The neighbour lists of an undirected graph with parallel edges and loops:
/// node `i` lists each neighbour once per edge, in the order the edges came.
pub struct Adjacency {
    neighbours: Vec<Vec<usize>>,
}

impl Adjacency {
    /// The neighbour list of each node.
    pub closed spec fn lists(&self) -> Seq<Seq<usize>> {
        lists_view(self.neighbours@)
    }

    /// Every listed neighbour is a node, and each node lists each other node
    /// exactly as often as that node lists it.
    pub open spec fn wf(&self) -> bool {
        &&& forall|i: int, k: int|
            0 <= i < self.lists().len() && 0 <= k < self.lists()[i].len() ==> #[trigger] self.lists()[i][k]
                < self.lists().len()
        &&& forall|i: int, j: int|
            0 <= i < self.lists().len() && 0 <= j < self.lists().len() ==> occurrences(
                #[trigger] self.lists()[i],
                j as usize,
            ) == occurrences(#[trigger] self.lists()[j], i as usize)
    }

    /// A graph without nodes.
    pub fn new() -> (r: Self)
        ensures
            r.wf(),
            r.lists() == Seq::<Seq<usize>>::empty(),
    {
        let r = Adjacency { neighbours: Vec::new() };
        proof {
            assert(r.lists() =~= Seq::<Seq<usize>>::empty());
        }
        r
    }

    /// The number of nodes.
    pub fn len(&self) -> (r: usize)
        ensures
            r == self.lists().len(),
    {
        self.neighbours.len()
    }

    /// The neighbour list of node `i`.
    pub fn neighbours(&self, i: usize) -> (r: &Vec<usize>)
        requires
            i < self.lists().len(),
        ensures
            r@ == self.lists()[i as int],
    {
        &self.neighbours[i]
    }

    /// Adds a node without neighbours.
    pub fn add_node(&mut self)
        requires
            old(self).wf(),
        ensures
            final(self).wf(),
            final(self).lists() == old(self).lists().push(Seq::<usize>::empty()),
    {
        let ghost before = self.lists();
        let n = self.neighbours.len();
        self.neighbours.push(Vec::new());
        proof {
            assert(self.lists() =~= before.push(Seq::<usize>::empty()));
            let l = self.lists();
            assert(l.len() == n + 1);
            assert forall|i: int, j: int| 0 <= i < l.len() && 0 <= j < l.len() implies occurrences(
                #[trigger] l[i],
                j as usize,
            ) == occurrences(#[trigger] l[j], i as usize) by {
                if i == n || j == n {
                    assert forall|k: int| 0 <= k < l[i].len() implies l[i][k] != j as usize by {
                        if i < n {
                            assert(l[i][k] == before[i][k]);
                        }
                    }
                    assert forall|k: int| 0 <= k < l[j].len() implies l[j][k] != i as usize by {
                        if j < n {
                            assert(l[j][k] == before[j][k]);
                        }
                    }
                    lemma_occurrences_absent(l[i], j as usize);
                    lemma_occurrences_absent(l[j], i as usize);
                } else {
                    assert(l[i] == before[i] && l[j] == before[j]);
                }
            }
        }
    }

    /// Adds an edge between `from` and `to`: each joins the other's list.
    pub fn add_edge(&mut self, from: usize, to: usize)
        requires
            old(self).wf(),
            from < old(self).lists().len(),
            to < old(self).lists().len(),
        ensures
            final(self).wf(),
            final(self).lists() == with_edge(old(self).lists(), from as int, to as int),
    {
        let ghost before = self.lists();
        let n = self.neighbours.len();
        assert(before.len() == n);
        self.neighbours[from].push(to);
        let ghost mid = self.lists();
        proof {
            assert(mid =~= before.update(from as int, before[from as int].push(to)));
        }
        self.neighbours[to].push(from);
        proof {
            let after = self.lists();
            assert(after =~= with_edge(before, from as int, to as int));
            assert forall|i: int, j: int|
                0 <= i < after.len() && 0 <= j < after.len() implies occurrences(
                #[trigger] after[i],
                j as usize,
            ) == occurrences(#[trigger] after[j], i as usize) by {
                lemma_edge_occurrences(before, from as int, to as int, i, j);
                lemma_edge_occurrences(before, from as int, to as int, j, i);
                assert(occurrences(before[i], j as usize) == occurrences(before[j], i as usize));
            }
        }
    }
}

/// A list without `x` has no occurrence of it.
proof fn lemma_occurrences_absent(s: Seq<usize>, x: usize)
    requires
        forall|k: int| 0 <= k < s.len() ==> s[k] != x,
    ensures
        occurrences(s, x) == 0,
    decreases s.len(),
{
    if s.len() > 0 {
        lemma_occurrences_absent(s.drop_last(), x);
    }
}

proof fn lemma_edge_occurrences(lists: Seq<Seq<usize>>, from: int, to: int, i: int, j: int)
    requires
        lists.len() <= usize::MAX,
        0 <= from < lists.len(),
        0 <= to < lists.len(),
        0 <= i < lists.len(),
        0 <= j < lists.len(),
    ensures
        occurrences(with_edge(lists, from, to)[i], j as usize) == occurrences(lists[i], j as usize) + (
        if i == from && j == to {
            1nat
        } else {
            0nat
        }) + (if i == to && j == from {
            1nat
        } else {
            0nat
        }),
{
    let a = lists.update(from, lists[from].push(to as usize));
    let b = with_edge(lists, from, to);
    lemma_occurrences_push(lists[from], to as usize, j as usize);
    lemma_occurrences_push(a[to], from as usize, j as usize);
    if i == to {
        assert(b[i] == a[to].push(from as usize));
        if i == from {
            assert(a[to] == lists[from].push(to as usize));
        } else {
            assert(a[to] == lists[to]);
        }
    } else if i == from {
        assert(b[i] == lists[from].push(to as usize));
    } else {
        assert(b[i] == lists[i]);
    }
}

} // verus!
