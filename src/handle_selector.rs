//! The path trie: one node per registered path prefix, literal children keyed
//! by their segment text, at most one wildcard child, and at most one handler
//! per node. Nodes live in an arena indexed from the root at 0.
use vstd::prelude::*;
use crate::path::{is_literal, is_parameter_declaration, is_wildcard, key_of, pattern_of, segments, split_path, Key};

verus! {

/// Every prefix of `q`, `q` itself and the empty pattern included.
pub open spec fn prefixes(q: Seq<Key>) -> Set<Seq<Key>> {
    Set::new(|p: Seq<Key>| p.len() <= q.len() && p == q.subrange(0, p.len() as int))
}

/// The node that a lookup reaches from `at` when `rest` remains to be read:
/// a literal child that matches the next segment wins over the wildcard child.
pub open spec fn walk(nodes: Set<Seq<Key>>, at: Seq<Key>, rest: Seq<Seq<char>>) -> Option<Seq<Key>>
    decreases rest.len(),
{
    if rest.len() == 0 {
        Some(at)
    } else if nodes.contains(at.push(Some(rest[0]))) {
        walk(nodes, at.push(Some(rest[0])), rest.drop_first())
    } else if nodes.contains(at.push(None)) {
        walk(nodes, at.push(None), rest.drop_first())
    } else {
        None
    }
}

/// The handler that a lookup of `path` finds in a trie with these nodes and
/// routes.
pub open spec fn resolve<H>(nodes: Set<Seq<Key>>, routes: Map<Seq<Key>, H>, path: Seq<char>) -> Option<H> {
    match walk(nodes, seq![], segments(path)) {
        Some(q) => if routes.contains_key(q) {
            Some(routes[q])
        } else {
            None
        },
        None => None,
    }
}

/// No literal step of `q` is written `{...}`: such a segment always stands
/// for the wildcard.
pub open spec fn canonical(q: Seq<Key>) -> bool {
    forall|i: int| 0 <= i < q.len() && (#[trigger] q[i]) is Some ==> !is_wildcard(q[i]->Some_0)
}

/// Only the empty pattern is a prefix of the empty pattern.
proof fn lemma_prefixes_empty()
    ensures
        prefixes(Seq::<Key>::empty()) == set![Seq::<Key>::empty()],
{
    assert forall|p: Seq<Key>| prefixes(Seq::<Key>::empty()).contains(p) implies p == Seq::<Key>::empty() by {
        assert(p =~= Seq::<Key>::empty());
    }
    assert(Seq::<Key>::empty().subrange(0, 0) =~= Seq::<Key>::empty());
    assert(prefixes(Seq::<Key>::empty()) =~= set![Seq::<Key>::empty()]);
}

/// The prefixes of `q.push(k)` are those of `q` and `q.push(k)` itself.
proof fn lemma_prefixes_push(q: Seq<Key>, k: Key)
    ensures
        prefixes(q.push(k)) == prefixes(q).insert(q.push(k)),
{
    let qk = q.push(k);
    assert forall|p: Seq<Key>| prefixes(qk).contains(p) <==> prefixes(q).insert(qk).contains(p) by {
        if p.len() <= q.len() {
            assert(qk.subrange(0, p.len() as int) =~= q.subrange(0, p.len() as int));
        }
        if p.len() == qk.len() {
            assert(qk.subrange(0, p.len() as int) =~= qk);
        }
        if p == qk {
            assert(qk.subrange(0, p.len() as int) =~= qk);
        }
    }
    assert(prefixes(qk) =~= prefixes(q).insert(qk));
}

/// The pattern that reads every segment of `p` literally.
pub open spec fn literal_pattern(p: Seq<char>) -> Seq<Key> {
    segments(p).map_values(|s: Seq<char>| Some(s))
}

proof fn lemma_walk_literal(nodes: Set<Seq<Key>>, segs: Seq<Seq<char>>, i: int)
    requires
        0 <= i <= segs.len(),
        prefixes(segs.map_values(|s: Seq<char>| Some(s))).subset_of(nodes),
    ensures
        walk(
            nodes,
            segs.map_values(|s: Seq<char>| Some(s)).subrange(0, i),
            segs.subrange(i, segs.len() as int),
        ) == Some(segs.map_values(|s: Seq<char>| Some(s))),
    decreases segs.len() - i,
{
    let q = segs.map_values(|s: Seq<char>| Some(s));
    let rest = segs.subrange(i, segs.len() as int);
    if i == segs.len() {
        assert(q.subrange(0, i) =~= q);
    } else {
        let next = q.subrange(0, i).push(Some(rest[0]));
        assert(next =~= q.subrange(0, i + 1));
        assert(prefixes(q).contains(next));
        assert(rest.drop_first() =~= segs.subrange(i + 1, segs.len() as int));
        lemma_walk_literal(nodes, segs, i + 1);
    }
}

/// When every prefix of the literal reading of `path` is a node, a lookup of
/// `path` follows the literal children all the way, whatever wildcard
/// siblings they have: it finds the handler at that literal pattern, or
/// nothing.
pub proof fn lemma_literal_wins<H>(nodes: Set<Seq<Key>>, routes: Map<Seq<Key>, H>, path: Seq<char>)
    requires
        prefixes(literal_pattern(path)).subset_of(nodes),
    ensures
        resolve(nodes, routes, path) == if routes.contains_key(literal_pattern(path)) {
            Some(routes[literal_pattern(path)])
        } else {
            None
        },
{
    let segs = segments(path);
    lemma_walk_literal(nodes, segs, 0);
    assert(literal_pattern(path).subrange(0, 0) =~= Seq::<Key>::empty());
    assert(segs.subrange(0, segs.len() as int) =~= segs);
}

/// A handler registered at a path without wildcard segments is what a
/// lookup of that path finds right after, whatever the trie held before.
pub proof fn lemma_insert_then_lookup<H>(
    nodes: Set<Seq<Key>>,
    routes: Map<Seq<Key>, H>,
    path: Seq<char>,
    handler: H,
)
    requires
        is_literal(pattern_of(path)),
    ensures
        resolve(
            nodes + prefixes(pattern_of(path)),
            routes.insert(pattern_of(path), handler),
            path,
        ) == Some(handler),
{
    let segs = segments(path);
    let q = pattern_of(path);
    assert forall|i: int| 0 <= i < segs.len() implies q[i] == Some(segs[i]) by {
        assert(q[i] is Some);
    }
    assert(q =~= literal_pattern(path));
    lemma_literal_wins(nodes + prefixes(q), routes.insert(q, handler), path);
}

proof fn lemma_walk_stays_literal(nodes: Set<Seq<Key>>, at: Seq<Key>, rest: Seq<Seq<char>>)
    requires
        forall|n: Seq<Key>| #[trigger] nodes.contains(n) ==> is_literal(n),
    ensures
        walk(nodes, at, rest) is Some ==> walk(nodes, at, rest)->Some_0 == at + rest.map_values(
            |s: Seq<char>| Some(s),
        ),
    decreases rest.len(),
{
    if rest.len() == 0 {
        assert(at + rest.map_values(|s: Seq<char>| Some(s)) =~= at);
    } else {
        let lit = at.push(Some(rest[0]));
        let tail = rest.drop_first();
        assert(at + rest.map_values(|s: Seq<char>| Some(s)) =~= lit + tail.map_values(
            |s: Seq<char>| Some(s),
        ));
        if nodes.contains(lit) {
            lemma_walk_stays_literal(nodes, lit, tail);
        } else {
            let wild = at.push(None);
            if nodes.contains(wild) {
                assert(wild[at.len() as int] is None);
            }
        }
    }
}

/// In a trie without wildcard nodes, a lookup finds a handler only at the
/// literal pattern of the path itself: a path that differs from every
/// registered one in some segment finds nothing.
pub proof fn lemma_literal_lookup_exact<H>(nodes: Set<Seq<Key>>, routes: Map<Seq<Key>, H>, path: Seq<char>)
    requires
        forall|n: Seq<Key>| #[trigger] nodes.contains(n) ==> is_literal(n),
    ensures
        resolve(nodes, routes, path) is Some ==> routes.contains_key(literal_pattern(path))
            && resolve(nodes, routes, path) == Some(routes[literal_pattern(path)]),
        !routes.contains_key(literal_pattern(path)) ==> resolve(nodes, routes, path) is None,
{
    lemma_walk_stays_literal(nodes, seq![], segments(path));
    assert(Seq::<Key>::empty() + segments(path).map_values(|s: Seq<char>| Some(s))
        =~= literal_pattern(path));
}

/// Registering at a pattern makes that pattern taken, so a second
/// registration there is refused; any other pattern stays as free or taken
/// as it was.
pub proof fn lemma_insert_taken<H>(routes: Map<Seq<Key>, H>, path: Seq<char>, other: Seq<char>, handler: H)
    ensures
        routes.insert(pattern_of(path), handler).contains_key(pattern_of(path)),
        pattern_of(other) != pattern_of(path) ==> (routes.insert(pattern_of(path), handler).contains_key(
            pattern_of(other),
        ) == routes.contains_key(pattern_of(other))),
{
}

proof fn lemma_walk_registered(nodes: Set<Seq<Key>>, path: Seq<char>, i: int)
    requires
        prefixes(pattern_of(path)).subset_of(nodes),
        forall|n: Seq<Key>| #[trigger] nodes.contains(n) ==> canonical(n),
        0 <= i <= segments(path).len(),
    ensures
        walk(
            nodes,
            pattern_of(path).subrange(0, i),
            segments(path).subrange(i, segments(path).len() as int),
        ) == Some(pattern_of(path)),
    decreases segments(path).len() - i,
{
    let q = pattern_of(path);
    let segs = segments(path);
    let rest = segs.subrange(i, segs.len() as int);
    let at = q.subrange(0, i);
    if i == segs.len() {
        assert(at =~= q);
    } else {
        let s = rest[0];
        assert(s == segs[i]);
        assert(q[i] == key_of(s));
        let next = q.subrange(0, i + 1);
        assert(prefixes(q).contains(next));
        assert(rest.drop_first() =~= segs.subrange(i + 1, segs.len() as int));
        if is_wildcard(s) {
            assert(next =~= at.push(None));
            let lit = at.push(Some(s));
            if nodes.contains(lit) {
                assert(canonical(lit));
                assert(lit[i] == Some(s));
            }
        } else {
            assert(next =~= at.push(Some(s)));
        }
        lemma_walk_registered(nodes, path, i + 1);
    }
}

/// The segments from `i` on fit the pattern `q` step by step: each is read
/// by a wildcard step or equals the literal step, and `q` ends with them.
pub open spec fn fits_from(q: Seq<Key>, segs: Seq<Seq<char>>, i: int) -> bool {
    &&& segs.len() == q.len()
    &&& forall|k: int| i <= k < q.len() ==> (#[trigger] q[k]) is None || q[k] == Some(segs[k])
}

proof fn lemma_prefix_step(q: Seq<Key>, i: int, k: Key)
    requires
        0 <= i <= q.len(),
    ensures
        prefixes(q).contains(q.subrange(0, i).push(k)) == (i < q.len() && q[i] == k),
{
    let p = q.subrange(0, i).push(k);
    if i < q.len() {
        if q[i] == k {
            assert(q.subrange(0, i + 1) =~= p);
        } else {
            assert(p[i] != q.subrange(0, i + 1)[i]);
        }
    }
}

proof fn lemma_walk_single(q: Seq<Key>, segs: Seq<Seq<char>>, i: int)
    requires
        0 <= i <= q.len(),
        i <= segs.len(),
    ensures
        walk(prefixes(q), q.subrange(0, i), segs.subrange(i, segs.len() as int)) == if fits_from(
            q,
            segs,
            i,
        ) {
            Some(q)
        } else if segs.len() < q.len() && forall|k: int|
            i <= k < segs.len() ==> (#[trigger] q[k]) is None || q[k] == Some(segs[k]) {
            Some(q.subrange(0, segs.len() as int))
        } else {
            None::<Seq<Key>>
        },
    decreases segs.len() - i,
{
    let at = q.subrange(0, i);
    let rest = segs.subrange(i, segs.len() as int);
    if i == segs.len() {
        if i == q.len() {
            assert(at =~= q);
        }
    } else {
        let s = rest[0];
        assert(s == segs[i]);
        assert(rest.drop_first() =~= segs.subrange(i + 1, segs.len() as int));
        lemma_prefix_step(q, i, Some(s));
        lemma_prefix_step(q, i, None);
        if i < q.len() && (q[i] is None || q[i] == Some(s)) {
            if q[i] == Some(s) {
                assert(q.subrange(0, i + 1) =~= at.push(Some(s)));
            } else {
                assert(q.subrange(0, i + 1) =~= at.push(None));
            }
            lemma_walk_single(q, segs, i + 1);
            if fits_from(q, segs, i + 1) {
                assert(fits_from(q, segs, i));
            }
        } else {
            assert(!fits_from(q, segs, i));
        }
    }
}

/// In a trie that holds one handler, at pattern `q`, a lookup finds it
/// exactly for the paths whose segments fit `q`: a wildcard step takes any
/// segment at its depth, and a literal step only its own text.
pub proof fn lemma_single_route<H>(q: Seq<Key>, handler: H, path: Seq<char>)
    ensures
        resolve(prefixes(q), map![q => handler], path) == if fits_from(q, segments(path), 0) {
            Some(handler)
        } else {
            None
        },
{
    let segs = segments(path);
    assert(q.subrange(0, 0) =~= Seq::<Key>::empty());
    assert(segs.subrange(0, segs.len() as int) =~= segs);
    lemma_walk_single(q, segs, 0);
    if segs.len() < q.len() {
        assert(q.subrange(0, segs.len() as int).len() != q.len());
    }
}

struct Node<H> {
    children: Vec<(String, usize)>,
    wildcard: Option<usize>,
    value: Option<H>,
}

spec fn has_edge<H>(node: Node<H>, k: Key, j: int) -> bool {
    match k {
        None => node.wildcard == Some(j as usize),
        Some(s) => exists|c: int|
            0 <= c < node.children@.len() && (#[trigger] node.children@[c]).0@ == s
                && node.children@[c].1 == j,
    }
}

/// A prefix tree from path patterns to handlers.
pub struct HandlerSelect<H> {
    nodes: Vec<Node<H>>,
    paths: Ghost<Seq<Seq<Key>>>,
    index: Ghost<Map<Seq<Key>, int>>,
}

impl<H> HandlerSelect<H> {
    /// The patterns that have a node: every prefix of a registered pattern,
    /// and the root.
    pub closed spec fn spec_nodes(&self) -> Set<Seq<Key>> {
        self.index@.dom()
    }

    /// The registered patterns and their handlers.
    pub closed spec fn spec_routes(&self) -> Map<Seq<Key>, H> {
        Map::new(
            |q: Seq<Key>| self.index@.contains_key(q) && self.nodes@[self.index@[q]].value is Some,
            |q: Seq<Key>| self.nodes@[self.index@[q]].value->Some_0,
        )
    }

    pub closed spec fn wf(&self) -> bool {
        let n = self.nodes@.len();
        let paths = self.paths@;
        let index = self.index@;
        &&& n >= 1
        &&& paths.len() == n
        &&& paths[0] == Seq::<Key>::empty()
        &&& forall|i: int|
            0 <= i < n ==> index.contains_key(#[trigger] paths[i]) && index[paths[i]] == i
        &&& forall|q: Seq<Key>| #[trigger]
            index.contains_key(q) ==> 0 <= index[q] < n && paths[index[q]] == q
        &&& forall|q: Seq<Key>| #[trigger]
            index.contains_key(q) && q.len() > 0 ==> {
                &&& index.contains_key(q.drop_last())
                &&& index[q.drop_last()] < index[q]
                &&& has_edge(self.nodes@[index[q.drop_last()]], q.last(), index[q])
            }
        &&& forall|i: int, c: int|
            0 <= i < n && 0 <= c < self.nodes@[i].children@.len() ==> {
                let e = #[trigger] self.nodes@[i].children@[c];
                &&& (e.1 as int) < n
                &&& paths[e.1 as int] == paths[i].push(Some(e.0@))
            }
        &&& forall|i: int|
            0 <= i < n && (#[trigger] self.nodes@[i].wildcard) is Some ==> {
                let j = self.nodes@[i].wildcard->Some_0 as int;
                &&& j < n
                &&& paths[j] == paths[i].push(None)
            }
        &&& forall|q: Seq<Key>| #[trigger] index.contains_key(q) ==> canonical(q)
    }

    /// Whether the trie holds a handler at exactly this pattern.
    pub open spec fn spec_contains(&self, q: Seq<Key>) -> bool {
        self.spec_routes().contains_key(q)
    }

    /// A trie whose nodes keep their edges stays well formed whatever
    /// handlers they hold.
    proof fn lemma_same_shape(a: &Self, b: &Self)
        requires
            a.wf(),
            a.paths@ == b.paths@,
            a.index@ == b.index@,
            a.nodes@.len() == b.nodes@.len(),
            forall|k: int|
                0 <= k < a.nodes@.len() ==> (#[trigger] b.nodes@[k]).children@
                    == a.nodes@[k].children@ && b.nodes@[k].wildcard == a.nodes@[k].wildcard,
        ensures
            b.wf(),
            b.spec_nodes() == a.spec_nodes(),
    {
        assert forall|q: Seq<Key>| #[trigger]
            b.index@.contains_key(q) && q.len() > 0 implies {
            &&& b.index@.contains_key(q.drop_last())
            &&& b.index@[q.drop_last()] < b.index@[q]
            &&& has_edge(b.nodes@[b.index@[q.drop_last()]], q.last(), b.index@[q])
        } by {
            let p = a.index@[q.drop_last()];
            assert(has_edge(a.nodes@[p], q.last(), a.index@[q]));
            assert(b.nodes@[p].children@ == a.nodes@[p].children@);
            if q.last() is Some {
                let e = choose|c: int|
                    0 <= c < a.nodes@[p].children@.len() && (#[trigger] a.nodes@[p].children@[c]).0@
                        == q.last()->Some_0 && a.nodes@[p].children@[c].1 == a.index@[q];
                assert(b.nodes@[p].children@[e] == a.nodes@[p].children@[e]);
            }
        }
        assert forall|i: int, c: int|
            0 <= i < b.nodes@.len() && 0 <= c < b.nodes@[i].children@.len() implies {
            let e = #[trigger] b.nodes@[i].children@[c];
            &&& (e.1 as int) < b.nodes@.len()
            &&& b.paths@[e.1 as int] == b.paths@[i].push(Some(e.0@))
        } by {
            assert(b.nodes@[i].children@ == a.nodes@[i].children@);
            assert(b.nodes@[i].children@[c] == a.nodes@[i].children@[c]);
        }
        assert forall|i: int|
            0 <= i < b.nodes@.len() && (#[trigger] b.nodes@[i].wildcard) is Some implies {
            let j = b.nodes@[i].wildcard->Some_0 as int;
            &&& j < b.nodes@.len()
            &&& b.paths@[j] == b.paths@[i].push(None)
        } by {
            assert(b.nodes@[i].wildcard == a.nodes@[i].wildcard);
        }
    }

    /// An empty trie: the root alone, with no handler.
    pub fn new() -> (r: Self)
        ensures
            r.wf(),
            r.spec_nodes() == set![Seq::<Key>::empty()],
            r.spec_routes() == Map::<Seq<Key>, H>::empty(),
    {
        let root = Node { children: Vec::new(), wildcard: None, value: None };
        let mut nodes = Vec::new();
        nodes.push(root);
        let ghost paths = seq![Seq::<Key>::empty()];
        let ghost index = map![Seq::<Key>::empty() => 0int];
        let r = HandlerSelect { nodes, paths: Ghost(paths), index: Ghost(index) };
        assert(r.spec_nodes() =~= set![Seq::<Key>::empty()]);
        assert(r.spec_routes() =~= Map::<Seq<Key>, H>::empty());
        r
    }

    /// The literal child of node `i` keyed by `seg`, if there is one.
    fn find_child(&self, i: usize, seg: &String) -> (r: Option<usize>)
        requires
            self.wf(),
            i < self.nodes@.len(),
        ensures
            match r {
                Some(j) => (j as int) < self.nodes@.len() && self.paths@[j as int]
                    == self.paths@[i as int].push(Some(seg@)),
                None => !self.index@.contains_key(self.paths@[i as int].push(Some(seg@))),
            },
    {
        let node = &self.nodes[i];
        let mut c: usize = 0;
        while c < node.children.len()
            invariant
                self.wf(),
                i < self.nodes@.len(),
                *node == self.nodes@[i as int],
                c <= node.children@.len(),
                forall|d: int| 0 <= d < c ==> (#[trigger] node.children@[d]).0@ != seg@,
            decreases node.children@.len() - c,
        {
            if node.children[c].0 == *seg {
                assert(self.nodes@[i as int].children@[c as int] == node.children@[c as int]);
                return Some(node.children[c].1);
            }
            c = c + 1;
        }
        proof {
            let q = self.paths@[i as int].push(Some(seg@));
            if self.index@.contains_key(q) {
                assert(q.drop_last() =~= self.paths@[i as int]);
                assert(has_edge(self.nodes@[i as int], Some(seg@), self.index@[q]));
            }
        }
        None
    }

    /// The node a lookup moves to from node `i` on reading `seg`.
    fn step(&self, i: usize, seg: &String) -> (r: Option<usize>)
        requires
            self.wf(),
            i < self.nodes@.len(),
        ensures
            ({
                let lit = self.paths@[i as int].push(Some(seg@));
                let wild = self.paths@[i as int].push(None);
                match r {
                    Some(j) => (j as int) < self.nodes@.len() && if self.index@.contains_key(lit) {
                        self.paths@[j as int] == lit
                    } else {
                        self.index@.contains_key(wild) && self.paths@[j as int] == wild
                    },
                    None => !self.index@.contains_key(lit) && !self.index@.contains_key(wild),
                }
            }),
    {
        match self.find_child(i, seg) {
            Some(j) => Some(j),
            None => {
                let ghost wild = self.paths@[i as int].push(None);
                match self.nodes[i].wildcard {
                    Some(j) => Some(j),
                    None => {
                        proof {
                            if self.index@.contains_key(wild) {
                                assert(wild.drop_last() =~= self.paths@[i as int]);
                            }
                        }
                        None
                    },
                }
            },
        }
    }

    /// Adds to node `i` a new child: the wildcard child when `wild`, else the
    /// literal child keyed by `seg`.
    fn add_child(&mut self, i: usize, seg: &String, wild: bool) -> (j: usize)
        requires
            old(self).wf(),
            i < old(self).nodes@.len(),
            wild || !is_wildcard(seg@),
            !old(self).index@.contains_key(
                old(self).paths@[i as int].push(if wild { None } else { Some(seg@) }),
            ),
        ensures
            final(self).wf(),
            j == old(self).nodes@.len(),
            final(self).paths@ == old(self).paths@.push(
                old(self).paths@[i as int].push(if wild { None } else { Some(seg@) }),
            ),
            final(self).spec_nodes() == old(self).spec_nodes().insert(
                old(self).paths@[i as int].push(if wild { None } else { Some(seg@) }),
            ),
            final(self).spec_routes() == old(self).spec_routes(),
    {
        let ghost key: Key = if wild { None } else { Some(seg@) };
        let ghost q = self.paths@[i as int].push(key);
        let ghost old_nodes = self.nodes@;
        proof {
            if old_nodes[i as int].wildcard is Some {
                assert(self.index@.contains_key(self.paths@[i as int].push(None)));
            }
        }
        let j = self.nodes.len();
        self.nodes.push(Node { children: Vec::new(), wildcard: None, value: None });
        self.paths = Ghost(self.paths@.push(q));
        self.index = Ghost(self.index@.insert(q, j as int));
        if wild {
            self.nodes[i].wildcard = Some(j);
        } else {
            let ghost old_children = self.nodes@[i as int].children@;
            self.nodes[i].children.push((seg.clone(), j));
            assert(self.nodes@[i as int].children@[old_children.len() as int].0@ == seg@);
            assert(forall|c: int|
                0 <= c < old_children.len() ==> self.nodes@[i as int].children@[c]
                    == old_children[c]);
        }
        proof {
            let n = self.nodes@.len();
            assert(q.drop_last() =~= self.paths@[i as int]);
            assert(canonical(old(self).paths@[i as int]));
            assert forall|k: int| 0 <= k < q.len() && (#[trigger] q[k]) is Some implies !is_wildcard(
                q[k]->Some_0,
            ) by {
                if k < q.len() - 1 {
                    assert(q[k] == old(self).paths@[i as int][k]);
                }
            }
            assert forall|k: Seq<Key>| #[trigger]
                self.index@.contains_key(k) && k.len() > 0 implies {
                &&& self.index@.contains_key(k.drop_last())
                &&& self.index@[k.drop_last()] < self.index@[k]
                &&& has_edge(self.nodes@[self.index@[k.drop_last()]], k.last(), self.index@[k])
            } by {
                if k == q {
                    if !wild {
                        let c = self.nodes@[i as int].children@.len() - 1;
                        assert(self.nodes@[i as int].children@[c].0@ == seg@);
                    }
                } else {
                    let p = self.index@[k.drop_last()];
                    assert(old(self).index@.contains_key(k));
                    assert(has_edge(old_nodes[p], k.last(), self.index@[k]));
                    if p != i as int {
                        assert(self.nodes@[p] == old_nodes[p]);
                    } else if k.last() is Some {
                        let e = choose|c: int|
                            0 <= c < old_nodes[p].children@.len() && (#[trigger] old_nodes[p].children@[c]).0@
                                == k.last()->Some_0 && old_nodes[p].children@[c].1 == self.index@[k];
                        if wild {
                            assert(self.nodes@[p].children@ == old_nodes[p].children@);
                        }
                        assert(self.nodes@[p].children@[e] == old_nodes[p].children@[e]);
                    } else {
                        if !wild {
                            assert(self.nodes@[p].wildcard == old_nodes[p].wildcard);
                        }
                    }
                }
            }
            assert(self.spec_nodes() =~= old(self).spec_nodes().insert(q));
            assert(self.spec_routes() =~= old(self).spec_routes());
        }
        j
    }

    /// The child of node `i` under the given key, created if absent.
    fn child_or_add(&mut self, i: usize, seg: &String, wild: bool) -> (j: usize)
        requires
            old(self).wf(),
            i < old(self).nodes@.len(),
            wild || !is_wildcard(seg@),
        ensures
            final(self).wf(),
            (j as int) < final(self).nodes@.len(),
            final(self).paths@[j as int] == old(self).paths@[i as int].push(
                if wild { None } else { Some(seg@) },
            ),
            final(self).spec_nodes() == old(self).spec_nodes().insert(
                old(self).paths@[i as int].push(if wild { None } else { Some(seg@) }),
            ),
            final(self).spec_routes() == old(self).spec_routes(),
            old(self).paths@.len() <= final(self).paths@.len(),
            forall|k: int|
                0 <= k < old(self).paths@.len() ==> #[trigger] final(self).paths@[k]
                    == old(self).paths@[k],
    {
        let ghost q = self.paths@[i as int].push(if wild { None } else { Some(seg@) });
        if wild {
            match self.nodes[i].wildcard {
                Some(j) => {
                    assert(self.spec_nodes().insert(q) =~= self.spec_nodes());
                    j
                },
                None => {
                    proof {
                        if self.index@.contains_key(q) {
                            assert(q.drop_last() =~= self.paths@[i as int]);
                        }
                    }
                    self.add_child(i, seg, true)
                },
            }
        } else {
            match self.find_child(i, seg) {
                Some(j) => {
                    assert(self.spec_nodes().insert(q) =~= self.spec_nodes());
                    j
                },
                None => self.add_child(i, seg, false),
            }
        }
    }

    /// Node `j` of `t` hangs below a node numbered under `i`, or is the root.
    spec fn placed(t: Self, j: int, i: int) -> bool {
        j == 0 || t.index@[t.paths@[j].drop_last()] < i
    }

    /// Merges `other` into this trie: each node of `other` gets its
    /// counterpart here (a wildcard branch stays a wildcard branch), and each
    /// handler of `other` moves to the counterpart of its node.
    pub fn extend(&mut self, other: HandlerSelect<H>)
        requires
            old(self).wf(),
            other.wf(),
            old(self).spec_routes().dom().disjoint(other.spec_routes().dom()),
        ensures
            final(self).wf(),
            final(self).spec_nodes() == old(self).spec_nodes() + other.spec_nodes(),
            final(self).spec_routes() == old(self).spec_routes().union_prefer_right(
                other.spec_routes(),
            ),
    {
        let ghost oth = other;
        let ghost mine = old(self).spec_nodes();
        let n = other.nodes.len();
        let mut image: Vec<usize> = Vec::new();
        let mut k: usize = 0;
        while k < n
            invariant
                image@.len() == k,
                k <= n,
                forall|d: int| 0 <= d < k ==> image@[d] == 0,
            decreases n - k,
        {
            image.push(0);
            k = k + 1;
        }
        proof {
            assert forall|j: int|
                0 <= j < n && #[trigger] Self::placed(oth, j, 0) implies (image@[j] as int)
                    < self.nodes@.len() && self.paths@[image@[j] as int] == oth.paths@[j] by {
                if j != 0 {
                    let q = oth.paths@[j];
                    if q.len() == 0 {
                        assert(q =~= oth.paths@[0]);
                    }
                    assert(oth.index@.contains_key(q.drop_last()));
                }
            }
        }
        let mut i: usize = 0;
        while i < n
            invariant
                self.wf(),
                oth == other,
                oth.wf(),
                n == oth.nodes@.len(),
                i <= n,
                image@.len() == n,
                mine.subset_of(self.spec_nodes()),
                self.spec_nodes().subset_of(mine + oth.spec_nodes()),
                self.spec_routes() == old(self).spec_routes(),
                forall|j: int|
                    0 <= j < n && #[trigger] Self::placed(oth, j, i as int) ==> (image@[j] as int)
                        < self.nodes@.len() && self.paths@[image@[j] as int] == oth.paths@[j],
            decreases n - i,
        {
            proof {
                if i > 0 {
                    let q = oth.paths@[i as int];
                    if q.len() == 0 {
                        assert(q =~= oth.paths@[0]);
                    }
                }
                assert(Self::placed(oth, i as int, i as int));
            }
            let m = image[i];
            let node = &other.nodes[i];
            let mut c: usize = 0;
            while c < node.children.len()
                invariant
                    self.wf(),
                    oth == other,
                    oth.wf(),
                    *node == oth.nodes@[i as int],
                    n == oth.nodes@.len(),
                    i < n,
                    c <= node.children@.len(),
                    image@.len() == n,
                    (m as int) < self.nodes@.len(),
                    self.paths@[m as int] == oth.paths@[i as int],
                    mine.subset_of(self.spec_nodes()),
                    self.spec_nodes().subset_of(mine + oth.spec_nodes()),
                    self.spec_routes() == old(self).spec_routes(),
                    forall|j: int|
                        0 <= j < n && #[trigger] Self::placed(oth, j, i as int) ==> (image@[j] as int)
                            < self.nodes@.len() && self.paths@[image@[j] as int] == oth.paths@[j],
                    forall|d: int|
                        0 <= d < c ==> {
                            let j = (#[trigger] node.children@[d]).1 as int;
                            (image@[j] as int) < self.nodes@.len() && self.paths@[image@[j] as int]
                                == oth.paths@[j]
                        },
                decreases node.children@.len() - c,
            {
                let j = node.children[c].1;
                proof {
                    let e = node.children@[c as int];
                    assert(oth.nodes@[i as int].children@[c as int] == e);
                    let q = oth.paths@[e.1 as int];
                    assert(oth.index@.contains_key(q));
                    assert(canonical(q));
                    assert(q[q.len() - 1] == Some(e.0@));
                }
                let t = self.child_or_add(m, &node.children[c].0, false);
                image.set(j, t);
                assert(oth.nodes@[i as int].children@[c as int] == node.children@[c as int]);
                c = c + 1;
            }
            match node.wildcard {
                Some(j) => {
                    let t = self.child_or_add(m, &String::new(), true);
                    image.set(j, t);
                },
                None => {},
            }
            proof {
                assert forall|j: int|
                    0 <= j < n && #[trigger] Self::placed(oth, j, i + 1) implies (image@[j] as int)
                        < self.nodes@.len() && self.paths@[image@[j] as int] == oth.paths@[j] by {
                    if !Self::placed(oth, j, i as int) {
                        let q = oth.paths@[j];
                        assert(oth.index@.contains_key(q));
                        if q.len() == 0 {
                            assert(q =~= oth.paths@[0]);
                        }
                        assert(q.len() > 0);
                        assert(oth.index@[q] == j);
                        assert(has_edge(oth.nodes@[i as int], q.last(), j));
                        if q.last() is Some {
                            let e = choose|d: int|
                                0 <= d < node.children@.len() && (#[trigger] node.children@[d]).0@
                                    == q.last()->Some_0 && node.children@[d].1 == j;
                            assert(node.children@[e].1 == j);
                        }
                    }
                }
            }
            i = i + 1;
        }
        proof {
            assert forall|q: Seq<Key>| oth.spec_nodes().contains(q) implies self.spec_nodes().contains(q) by {
                let j = oth.index@[q];
                if j != 0 && q.len() == 0 {
                    assert(q =~= oth.paths@[0]);
                }
                assert(Self::placed(oth, j, n as int));
            }
            assert(self.spec_nodes() =~= mine + oth.spec_nodes());
            assert forall|k: int|
                0 <= k < n implies (image@[k] as int) < self.nodes@.len() && self.paths@[#[trigger] image@[k] as int]
                    == oth.paths@[k] by {
                let q = oth.paths@[k];
                if k != 0 && q.len() == 0 {
                    assert(q =~= oth.paths@[0]);
                }
                assert(Self::placed(oth, k, n as int));
            }
        }
        let ghost mine_routes = old(self).spec_routes();
        let ghost theirs = oth.spec_routes();
        let mut onodes = other.nodes;
        let mut j: usize = 0;
        while j < n
            invariant
                self.wf(),
                oth.wf(),
                n == oth.nodes@.len(),
                onodes@.len() == n,
                j <= n,
                image@.len() == n,
                mine_routes == old(self).spec_routes(),
                theirs == oth.spec_routes(),
                mine_routes.dom().disjoint(theirs.dom()),
                self.spec_nodes() == mine + oth.spec_nodes(),
                forall|k: int| j <= k < n ==> (#[trigger] onodes@[k]).value == oth.nodes@[k].value,
                forall|k: int|
                    0 <= k < n ==> (image@[k] as int) < self.nodes@.len() && self.paths@[#[trigger] image@[k] as int]
                        == oth.paths@[k],
                forall|q: Seq<Key>| #[trigger]
                    self.spec_routes().contains_key(q) == (mine_routes.contains_key(q) || (
                    theirs.contains_key(q) && oth.index@[q] < j)),
                forall|q: Seq<Key>| #[trigger]
                    self.spec_routes().contains_key(q) ==> self.spec_routes()[q] == if mine_routes.contains_key(q) {
                        mine_routes[q]
                    } else {
                        theirs[q]
                    },
            decreases n - j,
        {
            let v = onodes[j].value.take();
            match v {
                Some(h) => {
                    let t = image[j];
                    let ghost q = oth.paths@[j as int];
                    let ghost prior = *self;
                    let ghost before = self.spec_routes();
                    assert(oth.index@[q] == j);
                    assert(theirs.contains_key(q));
                    assert(self.index@[q] == t);
                    self.nodes[t].value = Some(h);
                    proof {
                        assert forall|k: int| 0 <= k < self.nodes@.len() implies (#[trigger] self.nodes@[k]).children@
                            == prior.nodes@[k].children@ && self.nodes@[k].wildcard == prior.nodes@[k].wildcard by {
                            if k != t as int {
                                assert(self.nodes@[k] == prior.nodes@[k]);
                            }
                        }
                        Self::lemma_same_shape(&prior, self);
                        assert(self.spec_routes() =~= before.insert(q, h));
                    }
                },
                None => {
                    proof {
                        let q = oth.paths@[j as int];
                        assert(oth.index@[q] == j);
                        assert(!theirs.contains_key(q));
                    }
                },
            }
            j = j + 1;
        }
        proof {
            assert forall|q: Seq<Key>| theirs.contains_key(q) implies oth.index@[q] < n by {}
            assert(self.spec_routes() =~= mine_routes.union_prefer_right(theirs));
        }
    }

    /// Replaces every handler `h` with `f(h)`, keeping the shape of the trie.
    pub fn apply<F: Fn(H) -> H>(&mut self, f: F)
        requires
            old(self).wf(),
            forall|h: H| #[trigger] f.requires((h,)),
        ensures
            final(self).wf(),
            final(self).spec_nodes() == old(self).spec_nodes(),
            final(self).spec_routes().dom() == old(self).spec_routes().dom(),
            forall|q: Seq<Key>| #[trigger]
                old(self).spec_routes().contains_key(q) ==> f.ensures(
                    (old(self).spec_routes()[q],),
                    final(self).spec_routes()[q],
                ),
    {
        let ghost orig = *self;
        let n = self.nodes.len();
        let mut i: usize = 0;
        while i < n
            invariant
                orig.wf(),
                n == self.nodes@.len(),
                n == orig.nodes@.len(),
                i <= n,
                self.paths@ == orig.paths@,
                self.index@ == orig.index@,
                forall|h: H| #[trigger] f.requires((h,)),
                forall|k: int|
                    0 <= k < n ==> (#[trigger] self.nodes@[k]).children@ == orig.nodes@[k].children@
                        && self.nodes@[k].wildcard == orig.nodes@[k].wildcard,
                forall|k: int|
                    0 <= k < i ==> ((#[trigger] self.nodes@[k]).value is Some <==> orig.nodes@[k].value is Some),
                forall|k: int|
                    0 <= k < i && (#[trigger] orig.nodes@[k]).value is Some ==> f.ensures(
                        (orig.nodes@[k].value->Some_0,),
                        self.nodes@[k].value->Some_0,
                    ),
                forall|k: int| i <= k < n ==> (#[trigger] self.nodes@[k]).value == orig.nodes@[k].value,
            decreases n - i,
        {
            let ghost prior = self.nodes@;
            let v = self.nodes[i].value.take();
            match v {
                Some(h) => {
                    let w = f(h);
                    self.nodes[i].value = Some(w);
                },
                None => {},
            }
            assert forall|k: int| 0 <= k < n && k != i implies self.nodes@[k] == prior[k] by {}
            i = i + 1;
        }
        proof {
            Self::lemma_same_shape(&orig, self);
            assert(self.spec_routes().dom() =~= orig.spec_routes().dom());
        }
    }

    /// Looking up the very text a handler was registered under finds that
    /// handler, `{...}` segments included: a registered path is never
    /// diverted by a sibling.
    pub proof fn lemma_registered_resolves(&self, path: Seq<char>)
        requires
            self.wf(),
            self.spec_contains(pattern_of(path)),
        ensures
            resolve(self.spec_nodes(), self.spec_routes(), path) == Some(
                self.spec_routes()[pattern_of(path)],
            ),
    {
        let q = pattern_of(path);
        assert forall|p: Seq<Key>| prefixes(q).contains(p) implies self.spec_nodes().contains(p) by {
            self.lemma_prefix_node(q, p.len() as int);
        }
        assert forall|n: Seq<Key>| #[trigger] self.spec_nodes().contains(n) implies canonical(n) by {}
        lemma_walk_registered(self.spec_nodes(), path, 0);
        assert(q.subrange(0, 0) =~= Seq::<Key>::empty());
        assert(segments(path).subrange(0, segments(path).len() as int) =~= segments(path));
    }

    /// Whether a handler is registered at the pattern of `path`.
    pub fn contains(&self, path: &str) -> (r: bool)
        requires
            self.wf(),
        ensures
            r == self.spec_contains(pattern_of(path@)),
    {
        let segs = split_path(path);
        let ghost sv = segs@.map_values(|s: String| s@);
        let ghost pat = pattern_of(path@);
        let mut i: usize = 0;
        let mut t: usize = 0;
        while t < segs.len()
            invariant
                self.wf(),
                sv == segs@.map_values(|s: String| s@),
                sv == segments(path@),
                pat == pattern_of(path@),
                t <= segs@.len(),
                i < self.nodes@.len(),
                self.paths@[i as int] == pat.subrange(0, t as int),
            decreases segs@.len() - t,
        {
            let seg = &segs[t];
            let wild = is_parameter_declaration(seg.as_str());
            let ghost key: Key = if wild { None } else { Some(seg@) };
            assert(pat[t as int] == key_of(sv[t as int]));
            assert(pat.subrange(0, t + 1) =~= pat.subrange(0, t as int).push(key));
            let next = if wild {
                match self.nodes[i].wildcard {
                    Some(j) => Some(j),
                    None => {
                        proof {
                            let w = self.paths@[i as int].push(None);
                            if self.index@.contains_key(w) {
                                assert(w.drop_last() =~= self.paths@[i as int]);
                            }
                        }
                        None
                    },
                }
            } else {
                self.find_child(i, seg)
            };
            match next {
                Some(j) => {
                    i = j;
                },
                None => {
                    proof {
                        let q = pat.subrange(0, t + 1);
                        if self.spec_routes().contains_key(pat) {
                            assert(q.len() <= pat.len());
                            assert(self.index@.contains_key(pat));
                            self.lemma_prefix_node(pat, t + 1);
                        }
                    }
                    return false;
                },
            }
            t = t + 1;
        }
        assert(pat.subrange(0, t as int) =~= pat);
        self.nodes[i].value.is_some()
    }

    /// Every prefix of a node's pattern has a node.
    proof fn lemma_prefix_node(&self, q: Seq<Key>, len: int)
        requires
            self.wf(),
            self.index@.contains_key(q),
            0 <= len <= q.len(),
        ensures
            self.index@.contains_key(q.subrange(0, len)),
        decreases q.len() - len,
    {
        if len < q.len() {
            self.lemma_prefix_node(q, len + 1);
            let p = q.subrange(0, len + 1);
            assert(p.drop_last() =~= q.subrange(0, len));
        } else {
            assert(q.subrange(0, len) =~= q);
        }
    }

    /// Whether some pattern has a handler in both tries.
    pub fn overlaps(&self, other: &Self) -> (r: bool)
        requires
            self.wf(),
            other.wf(),
        ensures
            r == !self.spec_routes().dom().disjoint(other.spec_routes().dom()),
    {
        let n = other.nodes.len();
        let mut image: Vec<Option<usize>> = Vec::new();
        let mut k: usize = 0;
        while k < n
            invariant
                image@.len() == k,
                k <= n,
                forall|d: int| 0 <= d < k ==> image@[d] == Some(0usize),
            decreases n - k,
        {
            image.push(Some(0));
            k = k + 1;
        }
        proof {
            assert forall|j: int| 0 <= j < n && #[trigger] Self::placed(*other, j, 0) implies Self::maps(
                self,
                other,
                image@[j],
                j,
            ) by {
                if j != 0 {
                    let q = other.paths@[j];
                    if q.len() == 0 {
                        assert(q =~= other.paths@[0]);
                    }
                    assert(other.index@.contains_key(q.drop_last()));
                }
            }
        }
        let mut i: usize = 0;
        while i < n
            invariant
                self.wf(),
                other.wf(),
                n == other.nodes@.len(),
                i <= n,
                image@.len() == n,
                forall|j: int|
                    0 <= j < n && #[trigger] Self::placed(*other, j, i as int) ==> Self::maps(
                        self,
                        other,
                        image@[j],
                        j,
                    ),
            decreases n - i,
        {
            proof {
                if i > 0 {
                    let q = other.paths@[i as int];
                    if q.len() == 0 {
                        assert(q =~= other.paths@[0]);
                    }
                }
                assert(Self::placed(*other, i as int, i as int));
            }
            let m = image[i];
            let node = &other.nodes[i];
            let mut c: usize = 0;
            while c < node.children.len()
                invariant
                    self.wf(),
                    other.wf(),
                    *node == other.nodes@[i as int],
                    n == other.nodes@.len(),
                    i < n,
                    c <= node.children@.len(),
                    image@.len() == n,
                    Self::maps(self, other, m, i as int),
                    forall|j: int|
                        0 <= j < n && #[trigger] Self::placed(*other, j, i as int) ==> Self::maps(
                            self,
                            other,
                            image@[j],
                            j,
                        ),
                    forall|d: int|
                        0 <= d < c ==> {
                            let j = (#[trigger] node.children@[d]).1 as int;
                            Self::maps(self, other, image@[j], j)
                        },
                decreases node.children@.len() - c,
            {
                let j = node.children[c].1;
                assert(other.nodes@[i as int].children@[c as int] == node.children@[c as int]);
                let t = match m {
                    Some(mm) => self.find_child(mm, &node.children[c].0),
                    None => None,
                };
                proof {
                    let q = other.paths@[j as int];
                    if m is None && self.index@.contains_key(q) {
                        assert(q.drop_last() =~= other.paths@[i as int]);
                    }
                }
                image.set(j, t);
                c = c + 1;
            }
            match node.wildcard {
                Some(j) => {
                    let t = match m {
                        Some(mm) => {
                            proof {
                                let w = self.paths@[mm as int].push(None);
                                if self.nodes@[mm as int].wildcard is None && self.index@.contains_key(w) {
                                    assert(w.drop_last() =~= self.paths@[mm as int]);
                                }
                            }
                            self.nodes[mm].wildcard
                        },
                        None => None,
                    };
                    proof {
                        let q = other.paths@[j as int];
                        if m is None && self.index@.contains_key(q) {
                            assert(q.drop_last() =~= other.paths@[i as int]);
                        }
                    }
                    image.set(j, t);
                },
                None => {},
            }
            proof {
                assert forall|j: int|
                    0 <= j < n && #[trigger] Self::placed(*other, j, i + 1) implies Self::maps(
                        self,
                        other,
                        image@[j],
                        j,
                    ) by {
                    if !Self::placed(*other, j, i as int) {
                        let q = other.paths@[j];
                        assert(other.index@.contains_key(q));
                        if q.len() == 0 {
                            assert(q =~= other.paths@[0]);
                        }
                        assert(has_edge(other.nodes@[i as int], q.last(), j));
                        if q.last() is Some {
                            let e = choose|d: int|
                                0 <= d < node.children@.len() && (#[trigger] node.children@[d]).0@
                                    == q.last()->Some_0 && node.children@[d].1 == j;
                            assert(node.children@[e].1 == j);
                        }
                    }
                }
            }
            i = i + 1;
        }
        proof {
            assert forall|k: int| 0 <= k < n implies Self::maps(self, other, #[trigger] image@[k], k) by {
                let q = other.paths@[k];
                if k != 0 && q.len() == 0 {
                    assert(q =~= other.paths@[0]);
                }
                assert(Self::placed(*other, k, n as int));
            }
        }
        let mut j: usize = 0;
        while j < n
            invariant
                self.wf(),
                other.wf(),
                n == other.nodes@.len(),
                j <= n,
                image@.len() == n,
                forall|k: int| 0 <= k < n ==> Self::maps(self, other, #[trigger] image@[k], k),
                forall|q: Seq<Key>|
                    #[trigger] self.spec_routes().contains_key(q) && other.spec_routes().contains_key(q)
                        ==> other.index@[q] >= j,
            decreases n - j,
        {
            if other.nodes[j].value.is_some() {
                match image[j] {
                    Some(t) => {
                        if self.nodes[t].value.is_some() {
                            proof {
                                let q = other.paths@[j as int];
                                assert(self.spec_routes().contains_key(q));
                                assert(other.spec_routes().contains_key(q));
                            }
                            return true;
                        }
                    },
                    None => {},
                }
            }
            proof {
                assert forall|q: Seq<Key>|
                    #[trigger] self.spec_routes().contains_key(q) && other.spec_routes().contains_key(q)
                        implies other.index@[q] >= j + 1 by {
                    if other.index@[q] == j as int {
                        assert(other.paths@[j as int] == q);
                    }
                }
            }
            j = j + 1;
        }
        proof {
            assert forall|q: Seq<Key>| !(self.spec_routes().dom().contains(q) && other.spec_routes().dom().contains(q)) by {
                if self.spec_routes().contains_key(q) && other.spec_routes().contains_key(q) {
                    assert(other.index@[q] < n);
                }
            }
        }
        false
    }

    /// `image` is where node `j` of `other` stands in this trie, or `None`
    /// when this trie has no node at its pattern.
    spec fn maps(&self, other: &Self, image: Option<usize>, j: int) -> bool {
        match image {
            Some(t) => (t as int) < self.nodes@.len() && self.paths@[t as int] == other.paths@[j],
            None => !self.index@.contains_key(other.paths@[j]),
        }
    }

    /// Registers `handler` at the pattern that `path` denotes, creating the
    /// nodes on the way.
    pub fn insert(&mut self, path: &str, handler: H)
        requires
            old(self).wf(),
            !old(self).spec_contains(pattern_of(path@)),
        ensures
            final(self).wf(),
            final(self).spec_nodes() == old(self).spec_nodes() + prefixes(pattern_of(path@)),
            final(self).spec_routes() == old(self).spec_routes().insert(pattern_of(path@), handler),
            resolve(final(self).spec_nodes(), final(self).spec_routes(), path@) == Some(handler),
    {
        let segs = split_path(path);
        let ghost sv = segs@.map_values(|s: String| s@);
        let ghost pat = pattern_of(path@);
        let mut i: usize = 0;
        let mut t: usize = 0;
        assert(pat.subrange(0, 0) =~= Seq::<Key>::empty());
        proof {
            lemma_prefixes_empty();
        }
        assert(self.spec_nodes() + prefixes(pat.subrange(0, 0)) =~= self.spec_nodes());
        while t < segs.len()
            invariant
                self.wf(),
                sv == segs@.map_values(|s: String| s@),
                sv == segments(path@),
                pat == pattern_of(path@),
                t <= segs@.len(),
                i < self.nodes@.len(),
                self.paths@[i as int] == pat.subrange(0, t as int),
                self.spec_nodes() == old(self).spec_nodes() + prefixes(pat.subrange(0, t as int)),
                self.spec_routes() == old(self).spec_routes(),
            decreases segs@.len() - t,
        {
            let seg = &segs[t];
            let wild = is_parameter_declaration(seg.as_str());
            let ghost key: Key = if wild { None } else { Some(seg@) };
            assert(pat[t as int] == key_of(sv[t as int]));
            assert(pat.subrange(0, t + 1) =~= pat.subrange(0, t as int).push(key));
            proof {
                lemma_prefixes_push(pat.subrange(0, t as int), key);
            }
            i = self.child_or_add(i, seg, wild);
            t = t + 1;
        }
        assert(pat.subrange(0, t as int) =~= pat);
        let ghost before = self.spec_routes();
        let ghost prior = *self;
        self.nodes[i].value = Some(handler);
        proof {
            assert forall|k: int| 0 <= k < self.nodes@.len() implies (#[trigger] self.nodes@[k]).children@
                == prior.nodes@[k].children@ && self.nodes@[k].wildcard == prior.nodes@[k].wildcard by {
                if k != i as int {
                    assert(self.nodes@[k] == prior.nodes@[k]);
                }
            }
            Self::lemma_same_shape(&prior, self);
            assert(self.spec_nodes() =~= old(self).spec_nodes() + prefixes(pat));
            assert(self.spec_routes() =~= before.insert(pat, handler));
            self.lemma_registered_resolves(path@);
        }
    }

    /// The handler that a lookup of `path` finds: at each depth a literal
    /// child that matches the segment is taken, else the wildcard child.
    pub fn get(&self, path: &str) -> (r: Option<&H>)
        requires
            self.wf(),
        ensures
            resolve(self.spec_nodes(), self.spec_routes(), path@) == match r {
                Some(h) => Some(*h),
                None => None,
            },
    {
        let segs = split_path(path);
        let ghost sv = segs@.map_values(|s: String| s@);
        let ghost nodes = self.spec_nodes();
        let mut i: usize = 0;
        let mut t: usize = 0;
        assert(sv.subrange(0, sv.len() as int) =~= sv);
        while t < segs.len()
            invariant
                self.wf(),
                nodes == self.spec_nodes(),
                sv == segs@.map_values(|s: String| s@),
                sv == segments(path@),
                t <= segs@.len(),
                i < self.nodes@.len(),
                walk(nodes, seq![], sv) == walk(
                    nodes,
                    self.paths@[i as int],
                    sv.subrange(t as int, sv.len() as int),
                ),
            decreases segs@.len() - t,
        {
            let ghost rest = sv.subrange(t as int, sv.len() as int);
            assert(rest[0] == segs@[t as int]@);
            assert(rest.drop_first() =~= sv.subrange(t + 1, sv.len() as int));
            match self.step(i, &segs[t]) {
                Some(j) => {
                    i = j;
                },
                None => {
                    return None;
                },
            }
            t = t + 1;
        }
        assert(sv.subrange(t as int, sv.len() as int) =~= seq![]);
        match &self.nodes[i].value {
            Some(h) => Some(h),
            None => None,
        }
    }
}

} // verus!
