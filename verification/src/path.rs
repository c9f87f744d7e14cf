//! The discrete side of a shortest-path search: which nodes are sought,
//! which nodes and edges are forbidden, and the path that the back
//! pointers of a finished search describe.

use vstd::prelude::*;

verus! {

broadcast use vstd::std_specs::vec::group_vec_axioms;

/// Whether `v` holds `x`.
pub fn holds_node(v: &Vec<usize>, x: usize) -> (r: bool)
    ensures
        r == v@.contains(x),
{
    let mut i: usize = 0;
    while i < v.len()
        invariant
            0 <= i <= v@.len(),
            forall|j: int| 0 <= j < i ==> v@[j] != x,
        decreases v@.len() - i,
    {
        if v[i] == x {
            return true;
        }
        i = i + 1;
    }
    false
}

/// The nodes that a search is to reach.
#[derive(Clone, Debug, PartialEq, Eq)]
pub enum Goal {
    /// Every node: the search is never done early.
    Every,
    /// One node, until it has been visited.
    Single(Option<usize>),
    /// The nodes of a set that have not been visited yet.
    Among(Vec<usize>),
}

impl Goal {
    /// The nodes still sought, where they are listed.
    pub open spec fn remaining(&self) -> Set<usize> {
        match self {
            Goal::Every => Set::empty(),
            Goal::Single(Some(u)) => set![*u],
            Goal::Single(None) => Set::empty(),
            Goal::Among(s) => s@.to_set(),
        }
    }

    /// Whether nothing is left to seek.
    pub fn is_exhausted(&self) -> (r: bool)
        ensures
            r == (!(self is Every) && self.remaining() == Set::<usize>::empty()),
    {
        match self {
            Goal::Every => false,
            Goal::Single(u) => {
                proof {
                    if u is Some {
                        assert(self.remaining().contains(u->0));
                    }
                }
                u.is_none()
            },
            Goal::Among(s) => {
                proof {
                    if s@.len() > 0 {
                        assert(s@.contains(s@[0]));
                        assert(self.remaining().contains(s@[0]));
                    } else {
                        assert(self.remaining() =~= Set::<usize>::empty());
                    }
                }
                s.len() == 0
            },
        }
    }

    /// Marks `node` as visited: it is sought no longer.
    pub fn visit(&mut self, node: usize)
        ensures
            final(self).remaining() == old(self).remaining().remove(node),
            (*old(self) is Every) == (*final(self) is Every),
            (*old(self) is Single) == (*final(self) is Single),
    {
        match self {
            Goal::Every => {
                assert(self.remaining() =~= old(self).remaining().remove(node));
            },
            Goal::Single(u) => {
                if let Some(x) = u {
                    if *x == node {
                        *u = None;
                    }
                }
                assert(self.remaining() =~= old(self).remaining().remove(node));
            },
            Goal::Among(s) => {
                let ghost before = s@;
                let mut kept: Vec<usize> = Vec::new();
                let mut i: usize = 0;
                assert(kept@.to_set() =~= before.take(0).to_set().remove(node));
                while i < s.len()
                    invariant
                        0 <= i <= s@.len(),
                        s@ == before,
                        kept@.to_set() == before.take(i as int).to_set().remove(node),
                    decreases s@.len() - i,
                {
                    let ghost prev = kept@;
                    let x = s[i];
                    if x != node {
                        kept.push(x);
                    }
                    proof {
                        assert(before.take(i as int + 1) =~= before.take(i as int).push(x));
                        crate::symbol::lemma_to_set_push(before.take(i as int), x);
                        if x != node {
                            crate::symbol::lemma_to_set_push(prev, x);
                        }
                        assert(kept@.to_set() =~= before.take(i as int + 1).to_set().remove(node));
                    }
                    i = i + 1;
                }
                assert(before.take(i as int) =~= before);
                *s = kept;
                assert(self.remaining() =~= old(self).remaining().remove(node));
            },
        }
    }

    /// The nodes to report on: every node below `total` where every node
    /// is sought, else the nodes still sought.
    pub fn iter(&self, total: usize) -> (r: Vec<usize>)
        ensures
            match self {
                Goal::Every => r@ == Seq::new(total as nat, |i: int| i as usize),
                Goal::Single(Some(u)) => r@ == seq![*u],
                Goal::Single(None) => r@ == Seq::<usize>::empty(),
                Goal::Among(s) => r@ == s@,
            },
    {
        match self {
            Goal::Every => {
                let mut out: Vec<usize> = Vec::new();
                let mut i: usize = 0;
                while i < total
                    invariant
                        0 <= i <= total,
                        out@ == Seq::new(i as nat, |k: int| k as usize),
                    decreases total - i,
                {
                    out.push(i);
                    assert(out@ =~= Seq::new((i + 1) as nat, |k: int| k as usize));
                    i = i + 1;
                }
                out
            },
            Goal::Single(u) => {
                let mut out: Vec<usize> = Vec::new();
                if let Some(x) = u {
                    out.push(*x);
                    assert(out@ =~= seq![*x]);
                }
                out
            },
            Goal::Among(s) => s.clone(),
        }
    }

    /// The goal for the nodes that end a search: every node where none
    /// are given, the one node where one is given, else the set.
    pub fn from_nodes(termination_nodes: Option<Vec<usize>>) -> (r: Goal)
        ensures
            match termination_nodes {
                None => r == Goal::Every,
                Some(tn) => if tn@.len() == 1 {
                    r == Goal::Single(Some(tn@[0]))
                } else {
                    r == Goal::Among(tn)
                },
            },
    {
        match termination_nodes {
            None => Goal::Every,
            Some(tn) => {
                if tn.len() == 1 {
                    Goal::Single(Some(tn[0]))
                } else {
                    Goal::Among(tn)
                }
            },
        }
    }
}

/// The nodes that a search must not enter.
#[derive(Clone, Debug, PartialEq, Eq)]
pub enum ForbiddenNode {
    Nothing,
    Among(Vec<usize>),
}

impl ForbiddenNode {
    /// Whether the search must not enter `node`.
    pub fn is_forbidden(&self, node: usize) -> (r: bool)
        ensures
            r == (self matches ForbiddenNode::Among(s) && s@.contains(node)),
    {
        match self {
            ForbiddenNode::Nothing => false,
            ForbiddenNode::Among(s) => holds_node(s, node),
        }
    }
}

/// The edges that a search must not follow.
#[derive(Clone, Debug, PartialEq, Eq)]
pub enum ForbiddenEdge {
    Nothing,
    Among(Vec<(usize, usize)>),
}

impl ForbiddenEdge {
    /// Whether the search must not follow the edge from `src` to `dst`.
    pub fn is_forbidden(&self, src: usize, dst: usize) -> (r: bool)
        ensures
            r == (self matches ForbiddenEdge::Among(s) && s@.contains((src, dst))),
    {
        match self {
            ForbiddenEdge::Nothing => false,
            ForbiddenEdge::Among(s) => holds_edge(s, src, dst),
        }
    }
}

/// Whether `v` holds the edge from `src` to `dst`.
pub fn holds_edge(v: &Vec<(usize, usize)>, src: usize, dst: usize) -> (r: bool)
    ensures
        r == v@.contains((src, dst)),
{
    let mut i: usize = 0;
    while i < v.len()
        invariant
            0 <= i <= v@.len(),
            forall|j: int| 0 <= j < i ==> v@[j] != (src, dst),
        decreases v@.len() - i,
    {
        if v[i].0 == src && v[i].1 == dst {
            assert(v@[i as int] == (src, dst));
            return true;
        }
        i = i + 1;
    }
    false
}

/// The nodes from `current` back to `start` along the back pointers, in
/// `steps` steps: `current` first.
pub open spec fn walk_back(back_pointers: Seq<usize>, start: usize, current: usize, steps: nat)
    -> Option<Seq<usize>>
    decreases steps,
{
    if current == start {
        Some(seq![start])
    } else if steps == 0 || current >= back_pointers.len() {
        None
    } else {
        match walk_back(back_pointers, start, back_pointers[current as int], (steps - 1) as nat) {
            Some(rest) => Some(seq![current] + rest),
            None => None,
        }
    }
}

/// A walk that arrives within some number of steps arrives the same way
/// within any greater number.
pub proof fn lemma_walk_more(
    back_pointers: Seq<usize>,
    start: usize,
    current: usize,
    steps: nat,
    more: nat,
)
    requires
        walk_back(back_pointers, start, current, steps) is Some,
        steps <= more,
    ensures
        walk_back(back_pointers, start, current, more) == walk_back(
            back_pointers,
            start,
            current,
            steps,
        ),
    decreases steps,
{
    if current != start {
        lemma_walk_more(
            back_pointers,
            start,
            back_pointers[current as int],
            (steps - 1) as nat,
            (more - 1) as nat,
        );
    }
}

/// The path from `start` to `target` that the back pointers describe,
/// where following them from `target` arrives at `start` within as many
/// steps as there are nodes.
pub fn trace_path(back_pointers: &Vec<usize>, start: usize, target: usize) -> (r: Vec<usize>)
    requires
        walk_back(back_pointers@, start, target, back_pointers@.len()) is Some,
    ensures
        r@ == walk_back(back_pointers@, start, target, back_pointers@.len())->Some_0.reverse(),
{
    let ghost bp = back_pointers@;
    let ghost whole = walk_back(bp, start, target, bp.len())->Some_0;
    let mut path: Vec<usize> = Vec::new();
    let mut current = target;
    let mut left: usize = back_pointers.len();
    while current != start
        invariant
            bp == back_pointers@,
            left <= bp.len(),
            walk_back(bp, start, current, left as nat) is Some,
            whole == path@ + walk_back(bp, start, current, left as nat)->Some_0,
        decreases left,
    {
        let ghost rest = walk_back(bp, start, current, left as nat)->Some_0;
        path.push(current);
        current = back_pointers[current];
        left = left - 1;
        proof {
            let next = walk_back(bp, start, current, left as nat)->Some_0;
            assert(path@ + next =~= whole);
        }
    }
    path.push(start);
    proof {
        assert(path@ =~= whole);
    }
    let mut out: Vec<usize> = Vec::new();
    let mut i: usize = path.len();
    while i > 0
        invariant
            0 <= i <= path@.len(),
            out@.len() == path@.len() - i,
            forall|k: int| 0 <= k < out@.len() ==> out@[k] == path@[path@.len() - 1 - k],
        decreases i,
    {
        i = i - 1;
        out.push(path[i]);
    }
    assert(out@ =~= path@.reverse());
    out
}

/// The way in which the arguments of a shortest-path search are wrong.
#[derive(Clone, Copy, Debug, PartialEq, Eq, Structural)]
pub enum SearchError {
    /// There is no relation of edges.
    NoEdges,
    /// There is no relation of starting nodes.
    NoStartingNodes,
    /// The option `undirected` is no boolean.
    UndirectedNotBoolean,
}

/// Checks that a search is given its relations: edges first, starting
/// nodes second.
pub fn check_relations(count: usize) -> (r: Result<(), SearchError>)
    ensures
        r == (if count == 0 {
            Err::<(), SearchError>(SearchError::NoEdges)
        } else if count == 1 {
            Err(SearchError::NoStartingNodes)
        } else {
            Ok(())
        }),
{
    if count == 0 {
        Err(SearchError::NoEdges)
    } else if count == 1 {
        Err(SearchError::NoStartingNodes)
    } else {
        Ok(())
    }
}

/// The option `undirected` of a search: `false` where it is not given, its
/// value where it is a boolean constant.
pub fn undirected_option(given: Option<&crate::expr::Expr>) -> (r: Result<bool, SearchError>)
    ensures
        r == (match given {
            None => Ok::<bool, SearchError>(false),
            Some(crate::expr::Expr::Const { val: crate::value::DataValue::Bool(b), .. }) => Ok(
                *b,
            ),
            Some(_) => Err(SearchError::UndirectedNotBoolean),
        }),
{
    match given {
        None => Ok(false),
        Some(crate::expr::Expr::Const { val: crate::value::DataValue::Bool(b), .. }) => Ok(*b),
        Some(_) => Err(SearchError::UndirectedNotBoolean),
    }
}

} // verus!
