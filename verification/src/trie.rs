use vstd::prelude::*;

verus! {

use crate::common::{
    all_assigned, byte_of, byte_valid, code_assigned, contains_byte, first_invalid_at,
    initial_bytes, last_match, lemma_byte_of_code, lemma_last_match, lemma_total_len_ge_count,
    lemma_total_len_mono, lemma_total_len_nonneg, lemma_total_len_take_step, ord_inj, ordering,
    keys_of, pats_of, pats_valid, total_len, vals_of,
};
use crate::{ByteOrd, InvalidByteError, NodeId, PatId, CHAR_MAX, NODE_EMPTY, ORD_EMPTY, PAT_EMPTY};

/// One trie state: a transition table over compact codes, and the pattern
/// that ends here, if any.
pub(crate) struct Node {
    pub(crate) next: Vec<NodeId>,
    pub(crate) accept: PatId,
}

impl Node {
    /// The child reached on code `ord`.
    pub(crate) fn next(&self, ord: ByteOrd) -> (r: NodeId)
        requires
            (ord.0 as int) < self.next@.len(),
        ensures
            r == self.next@[ord.0 as int],
    {
        self.next[ord.idx()]
    }

    /// A fresh node: no transitions, no terminal pattern.
    pub(crate) fn default() -> (r: Node)
        ensures
            r.next@.len() == CHAR_MAX as int,
            forall|c: int| 0 <= c < CHAR_MAX as int ==> (#[trigger] r.next@[c]).0 == NODE_EMPTY,
            r.accept.0 == PAT_EMPTY,
    {
        Node { next: vec![NodeId(NODE_EMPTY); CHAR_MAX], accept: PatId(PAT_EMPTY) }
    }
}

/// Basic shape of the node arena and its ghost path labels.
pub(crate) open spec fn nodes_basic(nodes: Seq<Node>, paths: Seq<Seq<u8>>) -> bool {
    &&& nodes.len() >= 1
    &&& paths.len() == nodes.len()
    &&& paths[0] == Seq::<u8>::empty()
    &&& forall|n: int|
        0 <= n < nodes.len() ==> (#[trigger] nodes[n]).next@.len() == CHAR_MAX as int
}

/// Transitions stay inside the arena and never return to the root.
pub(crate) open spec fn edges_range(nodes: Seq<Node>) -> bool {
    forall|n: int, c: int|
        0 <= n < nodes.len() && 0 <= c < CHAR_MAX as int && (#[trigger] nodes[n].next@[c]).0
            != NODE_EMPTY ==> 1 <= nodes[n].next@[c].0 as int && (nodes[n].next@[c].0 as int)
            < nodes.len()
}

/// Each transition extends the source's path by the byte of its code.
pub(crate) open spec fn edges_paths(nodes: Seq<Node>, paths: Seq<Seq<u8>>, ord: Seq<ByteOrd>) -> bool {
    forall|n: int, c: int|
        0 <= n < nodes.len() && 0 <= c < CHAR_MAX as int && (#[trigger] nodes[n].next@[c]).0
            != NODE_EMPTY ==> code_assigned(ord, c) && paths[nodes[n].next@[c].0 as int]
            == paths[n].push(byte_of(ord, c))
}

/// Distinct nodes carry distinct labels.
pub(crate) open spec fn paths_inj(paths: Seq<Seq<u8>>, len: int) -> bool {
    forall|n1: int, n2: int|
        #![trigger paths[n1], paths[n2]]
        0 <= n1 < len && 0 <= n2 < len && paths[n1] == paths[n2] ==> n1 == n2
}

/// Some transition reaches `m`.
pub(crate) open spec fn has_parent(nodes: Seq<Node>, m: int) -> bool {
    exists|n: int, c: int|
        0 <= n < nodes.len() && 0 <= c < CHAR_MAX as int && (#[trigger] nodes[n].next@[c]).0
            != NODE_EMPTY && (nodes[n].next@[c].0 as int) == m
}

/// Every node but the root is the target of some transition.
pub(crate) open spec fn parent_exists(nodes: Seq<Node>) -> bool {
    forall|m: int| 1 <= m < nodes.len() ==> #[trigger] has_parent(nodes, m)
}

/// The node reached from `n` by the bytes of `s`, if every step exists.
pub(crate) open spec fn walk(nodes: Seq<Node>, ord: Seq<ByteOrd>, n: int, s: Seq<u8>) -> Option<
    int,
>
    decreases s.len(),
{
    if s.len() == 0 {
        Some(n)
    } else if !byte_valid(s[0]) {
        None
    } else if ord[s[0] as int].0 == ORD_EMPTY {
        None
    } else if nodes[n].next@[ord[s[0] as int].0 as int].0 == NODE_EMPTY {
        None
    } else {
        walk(nodes, ord, nodes[n].next@[ord[s[0] as int].0 as int].0 as int, s.skip(1))
    }
}

/// Accept marks: a marked node ends exactly the pattern written at it, the
/// mark is the last index among the first `bound` patterns with that byte
/// string, and a marked node is reached by walking its own path.
pub(crate) open spec fn accepts_wf(
    nodes: Seq<Node>,
    paths: Seq<Seq<u8>>,
    ord: Seq<ByteOrd>,
    keys: Seq<Seq<u8>>,
    bound: int,
) -> bool {
    forall|n: int|
        0 <= n < nodes.len() && (#[trigger] nodes[n]).accept.0 != PAT_EMPTY ==> {
            let a = nodes[n].accept.0 as int;
            &&& 0 <= a < bound
            &&& keys[a] == paths[n]
            &&& (forall|j: int| a < j < bound ==> keys[j] != paths[n])
            &&& walk(nodes, ord, 0, paths[n]) == Some(n)
        }
}

/// Every one of the first `bound` patterns walks to a marked node.
pub(crate) open spec fn inserted(
    nodes: Seq<Node>,
    ord: Seq<ByteOrd>,
    keys: Seq<Seq<u8>>,
    bound: int,
) -> bool {
    forall|i: int|
        0 <= i < bound ==> ((#[trigger] walk(nodes, ord, 0, keys[i])) matches Some(n) && 0 <= n
            < nodes.len() && nodes[n].accept.0 != PAT_EMPTY)
}

/// Walking a concatenation walks the first part, then the second.
pub(crate) proof fn lemma_walk_append(
    nodes: Seq<Node>,
    ord: Seq<ByteOrd>,
    n: int,
    s1: Seq<u8>,
    s2: Seq<u8>,
)
    ensures
        walk(nodes, ord, n, s1 + s2) == match walk(nodes, ord, n, s1) {
            Some(m) => walk(nodes, ord, m, s2),
            None => None::<int>,
        },
    decreases s1.len(),
{
    if s1.len() == 0 {
        assert(s1 + s2 =~= s2);
    } else {
        assert((s1 + s2)[0] == s1[0]);
        assert((s1 + s2).skip(1) =~= s1.skip(1) + s2);
        let b = s1[0];
        if byte_valid(b) && ord[b as int].0 != ORD_EMPTY && nodes[n].next@[ord[b as int].0 as int].0
            != NODE_EMPTY {
            lemma_walk_append(
                nodes,
                ord,
                nodes[n].next@[ord[b as int].0 as int].0 as int,
                s1.skip(1),
                s2,
            );
        }
    }
}

/// A successful walk ends at an in-range node labelled by the walked string.
pub(crate) proof fn lemma_walk_path(
    nodes: Seq<Node>,
    paths: Seq<Seq<u8>>,
    ord: Seq<ByteOrd>,
    n: int,
    s: Seq<u8>,
)
    requires
        nodes_basic(nodes, paths),
        edges_range(nodes),
        edges_paths(nodes, paths, ord),
        ord.len() == CHAR_MAX as int,
        ord_inj(ord),
        forall|b: int|
            0 <= b < CHAR_MAX as int && (#[trigger] ord[b]).0 != ORD_EMPTY ==> (ord[b].0 as int)
                < CHAR_MAX as int,
        0 <= n < nodes.len(),
        walk(nodes, ord, n, s) is Some,
    ensures
        walk(nodes, ord, n, s) matches Some(m) && 0 <= m < nodes.len() && paths[m] == paths[n] + s,
    decreases s.len(),
{
    if s.len() == 0 {
        assert(paths[n] + s =~= paths[n]);
    } else {
        let b = s[0];
        assert(byte_valid(b));
        assert(ord[b as int].0 != ORD_EMPTY);
        let c = ord[b as int].0 as int;
        assert(0 <= c < CHAR_MAX as int);
        let m1 = nodes[n].next@[c].0 as int;
        assert(nodes[n].next@[c].0 != NODE_EMPTY);
        lemma_byte_of_code(ord, b);
        assert(paths[m1] == paths[n].push(b));
        lemma_walk_path(nodes, paths, ord, m1, s.skip(1));
        assert(paths[n].push(b) + s.skip(1) =~= paths[n] + s);
    }
}

/// A successful walk is unaffected by filling empty slots or adding nodes.
pub(crate) proof fn lemma_walk_preserved(
    nodes1: Seq<Node>,
    nodes2: Seq<Node>,
    ord: Seq<ByteOrd>,
    n: int,
    s: Seq<u8>,
)
    requires
        edges_range(nodes1),
        nodes2.len() >= nodes1.len(),
        forall|p: int, c: int|
            0 <= p < nodes1.len() && 0 <= c < CHAR_MAX as int && (#[trigger] nodes1[p].next@[c]).0
                != NODE_EMPTY ==> nodes2[p].next@[c] == nodes1[p].next@[c],
        ord.len() == CHAR_MAX as int,
        forall|b: int|
            0 <= b < CHAR_MAX as int && (#[trigger] ord[b]).0 != ORD_EMPTY ==> (ord[b].0 as int)
                < CHAR_MAX as int,
        0 <= n < nodes1.len(),
        walk(nodes1, ord, n, s) is Some,
    ensures
        walk(nodes2, ord, n, s) == walk(nodes1, ord, n, s),
    decreases s.len(),
{
    if s.len() > 0 {
        let b = s[0];
        let c = ord[b as int].0 as int;
        let m1 = nodes1[n].next@[c].0 as int;
        lemma_walk_preserved(nodes1, nodes2, ord, m1, s.skip(1));
    }
}

/// Shared trie core: pattern table, node arena, initial-byte set, and the
/// compact code table. Built once; read-only afterwards.
pub(crate) struct TrieInner<V> {
    pub(crate) patterns: Vec<(Vec<u8>, V)>,
    pub(crate) nodes: Vec<Node>,
    pub(crate) initial_bytes: Vec<u8>,
    pub(crate) ord: Vec<ByteOrd>,
    pub(crate) paths: Ghost<Seq<Seq<u8>>>,
}

impl<V> TrieInner<V> {
    /// The byte strings of the stored patterns.
    pub(crate) open spec fn spec_keys(self) -> Seq<Seq<u8>> {
        keys_of(self.patterns@)
    }

    /// The stored payloads.
    pub(crate) open spec fn spec_vals(self) -> Seq<V> {
        vals_of(self.patterns@)
    }

    /// Structure invariant established by `construct`.
    pub(crate) open spec fn wf(self) -> bool {
        &&& self.ord@.len() == CHAR_MAX as int
        &&& ord_inj(self.ord@)
        &&& forall|b: int|
            0 <= b < CHAR_MAX as int && (#[trigger] self.ord@[b]).0 != ORD_EMPTY ==> (
            self.ord@[b].0 as int) < CHAR_MAX as int
        &&& nodes_basic(self.nodes@, self.paths@)
        &&& edges_range(self.nodes@)
        &&& edges_paths(self.nodes@, self.paths@, self.ord@)
        &&& paths_inj(self.paths@, self.nodes@.len() as int)
        &&& accepts_wf(
            self.nodes@,
            self.paths@,
            self.ord@,
            self.spec_keys(),
            self.spec_keys().len() as int,
        )
        &&& inserted(self.nodes@, self.ord@, self.spec_keys(), self.spec_keys().len() as int)
        &&& self.spec_keys().len() < PAT_EMPTY as int
        &&& forall|i: int| 0 <= i < self.spec_keys().len() ==> (#[trigger] self.spec_keys()[i]).len() >= 1
        &&& all_assigned(self.ord@, self.spec_keys())
        &&& forall|i: int|
            0 <= i < self.spec_keys().len() ==> self.initial_bytes@.contains(
                #[trigger] self.spec_keys()[i][0],
            )
    }

    /// Build the trie over `words`, inserting every pattern byte by byte.
    /// Fails exactly when some byte is at or above the alphabet bound.
    #[verifier::loop_isolation(false)]
    #[verifier::rlimit(50)]
    pub(crate) fn construct(words: Vec<(Vec<u8>, V)>) -> (r: Result<Self, InvalidByteError>)
        requires
            forall|i: int| 0 <= i < words@.len() ==> (#[trigger] words@[i].0@).len() >= 1,
            total_len(keys_of(words@)) + 1 < NODE_EMPTY as int,
        ensures
            match r {
                Ok(t) => {
                    &&& t.wf()
                    &&& t.spec_keys() == keys_of(words@)
                    &&& t.spec_vals() == vals_of(words@)
                    &&& pats_valid(t.spec_keys())
                },
                Err(e) => exists|i: int, j: int|
                    #[trigger] first_invalid_at(keys_of(words@), i, j)
                        && keys_of(words@)[i][j] == e.0,
            },
            (r is Ok) <==> pats_valid(keys_of(words@)),
    {
        let ghost keysv = keys_of(words@);
        let patterns = words;
        let mut keys: Vec<Vec<u8>> = Vec::new();
        let mut t: usize = 0;
        while t < patterns.len()
            invariant
                t <= patterns@.len(),
                keys@.len() == t as int,
                forall|x: int| 0 <= x < t as int ==> (#[trigger] keys@[x])@ == keysv[x],
            decreases patterns@.len() - t,
        {
            let kc = patterns[t].0.clone();
            proof {
                assert forall|x: int| 0 <= x < kc@.len() implies kc@[x] == patterns@[t as int].0@[x]
                by {
                    assert(vstd::pervasive::cloned::<u8>(patterns@[t as int].0@[x], kc@[x]));
                }
                assert(kc@ =~= patterns@[t as int].0@);
            }
            keys.push(kc);
            t += 1;
        }
        proof {
            assert(pats_of(keys@) =~= keysv);
        }
        let ord = match ordering(&keys) {
            Ok(oc) => oc.0,
            Err(e) => {
                return Err(e);
            },
        };
        let inits = initial_bytes(&keys);
        proof {
            lemma_total_len_nonneg(keysv);
            lemma_total_len_ge_count(keysv);
        }
        let mut nodes: Vec<Node> = Vec::new();
        nodes.push(Node::default());
        let ghost mut paths: Seq<Seq<u8>> = seq![Seq::<u8>::empty()];
        let mut i: usize = 0;
        while i < patterns.len()
            invariant
                i <= patterns@.len(),
                nodes_basic(nodes@, paths),
                edges_range(nodes@),
                edges_paths(nodes@, paths, ord@),
                paths_inj(paths, nodes@.len() as int),
                parent_exists(nodes@),
                accepts_wf(nodes@, paths, ord@, keysv, i as int),
                inserted(nodes@, ord@, keysv, i as int),
                nodes@.len() <= 1 + total_len(keysv.take(i as int)),
            decreases patterns@.len() - i,
        {
            let word = &patterns[i].0;
            proof {
                assert(word@ == keysv[i as int]);
                lemma_total_len_take_step(keysv, i as int);
                lemma_total_len_mono(keysv, i as int + 1);
            }
            let mut cur: usize = 0;
            let mut j: usize = 0;
            proof {
                assert(word@.take(0) =~= Seq::<u8>::empty());
            }
            while j < word.len()
                invariant
                    j <= word@.len(),
                    nodes_basic(nodes@, paths),
                    edges_range(nodes@),
                    edges_paths(nodes@, paths, ord@),
                    paths_inj(paths, nodes@.len() as int),
                    parent_exists(nodes@),
                    accepts_wf(nodes@, paths, ord@, keysv, i as int),
                    inserted(nodes@, ord@, keysv, i as int),
                    nodes@.len() <= 1 + total_len(keysv.take(i as int)) + j as int,
                    (cur as int) < nodes@.len(),
                    walk(nodes@, ord@, 0, word@.take(j as int)) == Some(cur as int),
                decreases word@.len() - j,
            {
                let b = word[j];
                proof {
                    assert(keysv[i as int][j as int] == word@[j as int]);
                }
                let c = ord[b as usize];
                if nodes[cur].next(c).is_empty() {
                    let fresh = nodes.len();
                    let ghost nodes0 = nodes@;
                    let ghost paths0 = paths;
                    nodes[cur].next[c.idx()] = NodeId(fresh as u32);
                    nodes.push(Node::default());
                    proof {
                        paths = paths0.push(paths0[cur as int].push(b));
                        let nodes1 = nodes@;
                        let cid = ord@[b as int].0 as int;
                        assert((fresh as int) < NODE_EMPTY as int);
                        assert(NodeId(fresh as u32).0 as int == fresh as int);
                        assert(nodes1.len() == nodes0.len() + 1);
                        assert(forall|p: int|
                            0 <= p < nodes0.len() && p != cur as int ==> nodes1[p] == nodes0[p]);
                        assert(nodes1[cur as int].next@ == nodes0[cur as int].next@.update(
                            cid,
                            NodeId(fresh as u32),
                        ));
                        assert(nodes1[cur as int].accept == nodes0[cur as int].accept);
                        assert(nodes_basic(nodes1, paths));
                        assert forall|p: int, c2: int|
                            0 <= p < nodes1.len() && 0 <= c2 < CHAR_MAX as int && (#[trigger]
                        nodes1[p].next@[c2]).0 != NODE_EMPTY implies 1 <= nodes1[p].next@[c2].0 as int
                            && (nodes1[p].next@[c2].0 as int) < nodes1.len() by {
                            if p == fresh as int {
                                assert(nodes1[p].next@[c2].0 == NODE_EMPTY);
                            } else if p == cur as int && c2 == cid {
                            } else {
                                assert(nodes1[p].next@[c2] == nodes0[p].next@[c2]);
                            }
                        }
                        assert(edges_range(nodes1));
                        lemma_byte_of_code(ord@, b);
                        assert forall|p: int, c2: int|
                            0 <= p < nodes1.len() && 0 <= c2 < CHAR_MAX as int && (#[trigger]
                        nodes1[p].next@[c2]).0 != NODE_EMPTY implies code_assigned(ord@, c2)
                            && paths[nodes1[p].next@[c2].0 as int] == paths[p].push(
                            byte_of(ord@, c2),
                        ) by {
                            if p == fresh as int {
                                assert(nodes1[p].next@[c2].0 == NODE_EMPTY);
                            } else if p == cur as int && c2 == cid {
                                assert(paths[fresh as int] == paths0[cur as int].push(b));
                            } else {
                                assert(nodes1[p].next@[c2] == nodes0[p].next@[c2]);
                                assert(paths[nodes0[p].next@[c2].0 as int] == paths0[nodes0[p].next@[c2].0 as int]);
                            }
                        }
                        assert(edges_paths(nodes1, paths, ord@));
                        assert(forall|p: int, c2: int|
                            0 <= p < nodes0.len() && 0 <= c2 < CHAR_MAX as int && (#[trigger]
                        nodes0[p].next@[c2]).0 != NODE_EMPTY ==> nodes1[p].next@[c2]
                            == nodes0[p].next@[c2]);
                        assert forall|n: int|
                            0 <= n < nodes1.len() && (#[trigger] nodes1[n]).accept.0 != PAT_EMPTY
                        implies {
                            let a = nodes1[n].accept.0 as int;
                            &&& 0 <= a < i as int
                            &&& keysv[a] == paths[n]
                            &&& (forall|jq: int| a < jq < i as int ==> keysv[jq] != paths[n])
                            &&& walk(nodes1, ord@, 0, paths[n]) == Some(n)
                        } by {
                            assert(n < nodes0.len());
                            assert(nodes1[n].accept == nodes0[n].accept);
                            assert(paths[n] == paths0[n]);
                            lemma_walk_preserved(nodes0, nodes1, ord@, 0, paths0[n]);
                        }
                        assert(accepts_wf(nodes1, paths, ord@, keysv, i as int));
                        assert forall|ii: int| 0 <= ii < i as int implies (#[trigger] walk(
                            nodes1,
                            ord@,
                            0,
                            keysv[ii],
                        )) matches Some(n) && 0 <= n < nodes1.len() && nodes1[n].accept.0
                            != PAT_EMPTY by {
                            lemma_walk_preserved(nodes0, nodes1, ord@, 0, keysv[ii]);
                            match walk(nodes0, ord@, 0, keysv[ii]) {
                                Some(n) => {
                                    assert(nodes1[n].accept == nodes0[n].accept);
                                },
                                None => {},
                            }
                        }
                        assert(inserted(nodes1, ord@, keysv, i as int));
                        assert forall|m: int| 1 <= m < nodes1.len() implies #[trigger] has_parent(
                            nodes1,
                            m,
                        ) by {
                            if m == fresh as int {
                                assert(nodes1[cur as int].next@[cid].0 != NODE_EMPTY);
                                assert((nodes1[cur as int].next@[cid].0 as int) == m);
                            } else {
                                assert(has_parent(nodes0, m));
                                let (pp, cc) = choose|pp: int, cc: int|
                                    0 <= pp < nodes0.len() && 0 <= cc < CHAR_MAX as int && (
                                    #[trigger] nodes0[pp].next@[cc]).0 != NODE_EMPTY && (
                                    nodes0[pp].next@[cc].0 as int) == m;
                                assert(nodes1[pp].next@[cc] == nodes0[pp].next@[cc]);
                            }
                        }
                        assert(parent_exists(nodes1));
                        assert forall|m: int|
                            0 <= m < nodes0.len() implies paths0[m] != paths0[cur as int].push(
                            b,
                        ) by {
                            if paths0[m] == paths0[cur as int].push(b) {
                                assert(paths0[m].len() >= 1);
                                assert(m != 0);
                                assert(has_parent(nodes0, m));
                                let (pm, cm) = choose|pm: int, cm: int|
                                    0 <= pm < nodes0.len() && 0 <= cm < CHAR_MAX as int && (
                                    #[trigger] nodes0[pm].next@[cm]).0 != NODE_EMPTY && (
                                    nodes0[pm].next@[cm].0 as int) == m;
                                assert(paths0[m] == paths0[pm].push(byte_of(ord@, cm)));
                                crate::common::lemma_push_inj(
                                    paths0[pm],
                                    paths0[cur as int],
                                    byte_of(ord@, cm),
                                    b,
                                );
                                assert(pm == cur as int);
                                assert(code_assigned(ord@, cm));
                                let bcm = byte_of(ord@, cm);
                                assert(byte_valid(bcm) && ord@[bcm as int].0 == cm);
                                assert(cm == cid);
                                assert(nodes0[cur as int].next@[cid].0 != NODE_EMPTY);
                                assert(false);
                            }
                        }
                        assert forall|n1: int, n2: int|
                            #![trigger paths[n1], paths[n2]]
                            0 <= n1 < nodes1.len() && 0 <= n2 < nodes1.len() && paths[n1]
                                == paths[n2] implies n1 == n2 by {
                            if n1 < nodes0.len() && n2 < nodes0.len() {
                                assert(paths[n1] == paths0[n1] && paths[n2] == paths0[n2]);
                            } else if n1 == fresh as int && n2 < nodes0.len() {
                                assert(paths0[n2] != paths0[cur as int].push(b));
                                assert(false);
                            } else if n2 == fresh as int && n1 < nodes0.len() {
                                assert(paths0[n1] != paths0[cur as int].push(b));
                                assert(false);
                            }
                        }
                        assert(paths_inj(paths, nodes1.len() as int));
                        lemma_walk_preserved(nodes0, nodes1, ord@, 0, word@.take(j as int));
                    }
                }
                let nxt = nodes[cur].next(c);
                proof {
                    lemma_walk_append(nodes@, ord@, 0, word@.take(j as int), seq![b]);
                    assert(word@.take(j as int + 1) =~= word@.take(j as int) + seq![b]);
                    assert(seq![b].skip(1) =~= Seq::<u8>::empty());
                    assert(seq![b][0] == b);
                    assert(byte_valid(b) && ord@[b as int].0 != ORD_EMPTY);
                    assert(nodes@[cur as int].next@[ord@[b as int].0 as int].0 != NODE_EMPTY);
                    assert(walk(nodes@, ord@, nxt.0 as int, seq![b].skip(1)) == Some(nxt.0 as int));
                    assert(walk(nodes@, ord@, cur as int, seq![b]) == Some(nxt.0 as int));
                }
                cur = nxt.idx();
                j += 1;
            }
            proof {
                assert(word@.take(j as int) =~= word@);
            }
            let ghost nodes0 = nodes@;
            nodes[cur].accept = PatId(i as u32);
            proof {
                let nodes1 = nodes@;
                assert(forall|p: int|
                    0 <= p < nodes1.len() ==> (#[trigger] nodes1[p]).next@ == nodes0[p].next@);
                assert(forall|p: int|
                    0 <= p < nodes1.len() && p != cur as int ==> (#[trigger] nodes1[p]).accept
                        == nodes0[p].accept);
                assert(nodes1[cur as int].accept.0 == i as u32);
                assert(i as int != PAT_EMPTY as int);
                assert(nodes_basic(nodes1, paths));
                assert(edges_range(nodes1));
                assert(edges_paths(nodes1, paths, ord@));
                assert(forall|p: int, c2: int|
                    0 <= p < nodes0.len() && 0 <= c2 < CHAR_MAX as int && (#[trigger]
                nodes0[p].next@[c2]).0 != NODE_EMPTY ==> nodes1[p].next@[c2] == nodes0[p].next@[c2]);
                lemma_walk_preserved(nodes0, nodes1, ord@, 0, word@);
                lemma_walk_path(nodes0, paths, ord@, 0, word@);
                assert(paths[0] + word@ =~= word@);
                assert(paths[cur as int] == word@);
                assert(walk(nodes1, ord@, 0, paths[cur as int]) == Some(cur as int));
                assert forall|n: int|
                    0 <= n < nodes1.len() && (#[trigger] nodes1[n]).accept.0 != PAT_EMPTY implies {
                    let a = nodes1[n].accept.0 as int;
                    &&& 0 <= a < i as int + 1
                    &&& keysv[a] == paths[n]
                    &&& (forall|jq: int| a < jq < i as int + 1 ==> keysv[jq] != paths[n])
                    &&& walk(nodes1, ord@, 0, paths[n]) == Some(n)
                } by {
                    if n == cur as int {
                        assert(keysv[i as int] == paths[cur as int]);
                    } else {
                        assert(nodes1[n].accept == nodes0[n].accept);
                        let a = nodes0[n].accept.0 as int;
                        lemma_walk_preserved(nodes0, nodes1, ord@, 0, paths[n]);
                        assert forall|jq: int| a < jq < i as int + 1 implies keysv[jq] != paths[n]
                        by {
                            if jq == i as int {
                                if keysv[jq] == paths[n] {
                                    assert(walk(nodes1, ord@, 0, paths[n]) == Some(n));
                                    assert(walk(nodes1, ord@, 0, paths[cur as int]) == Some(
                                        cur as int,
                                    ));
                                    assert(false);
                                }
                            }
                        }
                    }
                }
                assert(accepts_wf(nodes1, paths, ord@, keysv, i as int + 1));
                assert forall|ii: int| 0 <= ii < i as int + 1 implies (#[trigger] walk(
                    nodes1,
                    ord@,
                    0,
                    keysv[ii],
                )) matches Some(n) && 0 <= n < nodes1.len() && nodes1[n].accept.0 != PAT_EMPTY by {
                    if ii < i as int {
                        lemma_walk_preserved(nodes0, nodes1, ord@, 0, keysv[ii]);
                        match walk(nodes0, ord@, 0, keysv[ii]) {
                            Some(n) => {
                                if n != cur as int {
                                    assert(nodes1[n].accept == nodes0[n].accept);
                                }
                            },
                            None => {},
                        }
                    } else {
                        assert(walk(nodes1, ord@, 0, keysv[ii]) == Some(cur as int));
                    }
                }
                assert(inserted(nodes1, ord@, keysv, i as int + 1));
                assert forall|m: int| 1 <= m < nodes1.len() implies #[trigger] has_parent(
                    nodes1,
                    m,
                ) by {
                    assert(has_parent(nodes0, m));
                    let (pp, cc) = choose|pp: int, cc: int|
                        0 <= pp < nodes0.len() && 0 <= cc < CHAR_MAX as int && (#[trigger]
                    nodes0[pp].next@[cc]).0 != NODE_EMPTY && (nodes0[pp].next@[cc].0 as int) == m;
                    assert(nodes1[pp].next@[cc] == nodes0[pp].next@[cc]);
                }
                assert(parent_exists(nodes1));
            }
            i += 1;
        }
        let result = TrieInner {
            patterns,
            nodes,
            initial_bytes: inits,
            ord,
            paths: Ghost(paths),
        };
        proof {
            assert(keysv.take(keysv.len() as int) =~= keysv);
            assert(result.spec_keys() =~= keysv);
            assert(result.spec_vals() =~= vals_of(words@));
            assert forall|ii: int| 0 <= ii < keysv.len() implies result.initial_bytes@.contains(
                #[trigger] keysv[ii][0],
            ) by {
                assert(keys@[ii]@[0] == keysv[ii][0]);
            }
        }
        Ok(result)
    }

    /// Exact lookup: the identifier of the last stored pattern equal to
    /// `query`, or the empty identifier when none is.
    #[verifier::loop_isolation(false)]
    pub(crate) fn run(&self, query: &Vec<u8>) -> (r: PatId)
        requires
            self.wf(),
        ensures
            match last_match(self.spec_keys(), query@) {
                Some(i) => r.0 as int == i,
                None => r.0 == PAT_EMPTY,
            },
    {
        let ghost keysv = self.spec_keys();
        proof {
            lemma_last_match(keysv, query@);
        }
        if query.len() == 0 {
            proof {
                match last_match(keysv, query@) {
                    Some(i) => {
                        assert(keysv[i].len() >= 1);
                        assert(false);
                    },
                    None => {},
                }
            }
            return PatId(PAT_EMPTY);
        }
        if !contains_byte(&self.initial_bytes, query[0]) {
            proof {
                match last_match(keysv, query@) {
                    Some(i) => {
                        assert(self.initial_bytes@.contains(keysv[i][0]));
                        assert(false);
                    },
                    None => {},
                }
            }
            return PatId(PAT_EMPTY);
        }
        let mut cur: usize = 0;
        let mut j: usize = 0;
        proof {
            assert(query@.take(0) =~= Seq::<u8>::empty());
        }
        while j < query.len()
            invariant
                j <= query@.len(),
                (cur as int) < self.nodes@.len(),
                walk(self.nodes@, self.ord@, 0, query@.take(j as int)) == Some(cur as int),
            decreases query@.len() - j,
        {
            let b = query[j];
            let ghost jj = j as int;
            proof {
                lemma_walk_append(self.nodes@, self.ord@, 0, query@.take(jj), seq![b]);
                assert(query@.take(jj + 1) =~= query@.take(jj) + seq![b]);
                lemma_walk_append(self.nodes@, self.ord@, 0, query@.take(jj + 1), query@.skip(jj + 1));
                assert(query@ =~= query@.take(jj + 1) + query@.skip(jj + 1));
                assert(seq![b].skip(1) =~= Seq::<u8>::empty());
            }
            if b as usize >= CHAR_MAX {
                proof {
                    assert(walk(self.nodes@, self.ord@, 0, query@) is None);
                    match last_match(keysv, query@) {
                        Some(i) => {
                            assert(walk(self.nodes@, self.ord@, 0, keysv[i]) matches Some(_n));
                            assert(false);
                        },
                        None => {},
                    }
                }
                return PatId(PAT_EMPTY);
            }
            let c = self.ord[b as usize];
            if c.is_empty() {
                proof {
                    assert(walk(self.nodes@, self.ord@, 0, query@) is None);
                    match last_match(keysv, query@) {
                        Some(i) => {
                            assert(walk(self.nodes@, self.ord@, 0, keysv[i]) matches Some(_n));
                            assert(false);
                        },
                        None => {},
                    }
                }
                return PatId(PAT_EMPTY);
            }
            let nxt = self.nodes[cur].next(c);
            if nxt.is_empty() {
                proof {
                    assert(walk(self.nodes@, self.ord@, 0, query@) is None);
                    match last_match(keysv, query@) {
                        Some(i) => {
                            assert(walk(self.nodes@, self.ord@, 0, keysv[i]) matches Some(_n));
                            assert(false);
                        },
                        None => {},
                    }
                }
                return PatId(PAT_EMPTY);
            }
            proof {
                assert(seq![b][0] == b);
                assert(byte_valid(b) && self.ord@[b as int].0 != ORD_EMPTY);
                assert(self.nodes@[cur as int].next@[self.ord@[b as int].0 as int].0
                    != NODE_EMPTY);
                assert(walk(self.nodes@, self.ord@, nxt.0 as int, seq![b].skip(1)) == Some(
                    nxt.0 as int,
                ));
                assert(walk(self.nodes@, self.ord@, cur as int, seq![b]) == Some(nxt.0 as int));
            }
            cur = nxt.idx();
            j += 1;
        }
        let a = self.nodes[cur].accept;
        proof {
            assert(query@.take(query@.len() as int) =~= query@);
            assert(walk(self.nodes@, self.ord@, 0, query@) == Some(cur as int));
            if a.0 != PAT_EMPTY {
                lemma_walk_path(self.nodes@, self.paths@, self.ord@, 0, query@);
                assert(self.paths@[0] + query@ =~= query@);
                assert(self.paths@[cur as int] == query@);
                assert(keysv[a.0 as int] == query@);
                match last_match(keysv, query@) {
                    Some(i) => {
                        if i < a.0 as int {
                            assert(keysv[a.0 as int] != query@);
                            assert(false);
                        }
                        if i > a.0 as int {
                            assert(keysv[i] != self.paths@[cur as int]);
                            assert(false);
                        }
                    },
                    None => {
                        assert(false);
                    },
                }
            } else {
                match last_match(keysv, query@) {
                    Some(i) => {
                        assert(walk(self.nodes@, self.ord@, 0, keysv[i]) matches Some(n)
                            && self.nodes@[n].accept.0 != PAT_EMPTY);
                        assert(false);
                    },
                    None => {},
                }
            }
        }
        a
    }
}

/// Exact-membership set of byte-string patterns.
pub struct TrieSet {
    pub(crate) inner: TrieInner<()>,
}

impl TrieSet {
    /// The byte strings this set was built from.
    pub closed spec fn spec_patterns(self) -> Seq<Seq<u8>> {
        self.inner.spec_keys()
    }

    /// Structure invariant: established by `new`, preserved forever.
    pub closed spec fn wf(self) -> bool {
        self.inner.wf()
    }

    /// Build the set. Fails exactly when some pattern holds a byte at or
    /// above the alphabet bound, reporting that byte.
    pub fn new(p: Vec<Vec<u8>>) -> (r: Result<Self, InvalidByteError>)
        requires
            forall|i: int| 0 <= i < p@.len() ==> (#[trigger] p@[i]@).len() >= 1,
            total_len(pats_of(p@)) + 1 < NODE_EMPTY as int,
        ensures
            match r {
                Ok(s) => s.wf() && s.spec_patterns() == pats_of(p@),
                Err(e) => exists|i: int, j: int|
                    #[trigger] first_invalid_at(pats_of(p@), i, j) && pats_of(p@)[i][j] == e.0,
            },
            (r is Ok) <==> pats_valid(pats_of(p@)),
    {
        let mut pairs: Vec<(Vec<u8>, ())> = Vec::new();
        let mut t: usize = 0;
        while t < p.len()
            invariant
                t <= p@.len(),
                pairs@.len() == t as int,
                forall|x: int| 0 <= x < t as int ==> (#[trigger] pairs@[x]).0@ == p@[x]@,
            decreases p@.len() - t,
        {
            let kc = p[t].clone();
            proof {
                assert forall|x: int| 0 <= x < kc@.len() implies kc@[x] == p@[t as int]@[x] by {
                    assert(vstd::pervasive::cloned::<u8>(p@[t as int]@[x], kc@[x]));
                }
                assert(kc@ =~= p@[t as int]@);
            }
            pairs.push((kc, ()));
            t += 1;
        }
        proof {
            assert(keys_of(pairs@) =~= pats_of(p@));
        }
        match TrieInner::construct(pairs) {
            Ok(inner) => Ok(TrieSet { inner }),
            Err(e) => Err(e),
        }
    }

    /// Whether `pattern` is byte-identical to some stored pattern.
    pub fn contains(&self, pattern: &Vec<u8>) -> (r: bool)
        requires
            self.wf(),
        ensures
            r == self.spec_patterns().contains(pattern@),
    {
        let pat_id = self.inner.run(pattern);
        proof {
            lemma_last_match(self.spec_patterns(), pattern@);
            match last_match(self.spec_patterns(), pattern@) {
                Some(i) => {
                    assert(self.spec_patterns()[i] == pattern@);
                },
                None => {
                    if self.spec_patterns().contains(pattern@) {
                        let w = choose|w: int|
                            0 <= w < self.spec_patterns().len() && self.spec_patterns()[w]
                                == pattern@;
                        assert(self.spec_patterns()[w] != pattern@);
                    }
                },
            }
        }
        !pat_id.is_empty()
    }
}

/// Exact-lookup map from byte-string keys to payloads.
pub struct TrieMap<V> {
    pub(crate) inner: TrieInner<V>,
}

impl<V> TrieMap<V> {
    /// The byte-string keys this map was built from.
    pub closed spec fn spec_keys(self) -> Seq<Seq<u8>> {
        self.inner.spec_keys()
    }

    /// The payloads this map was built from, in construction order.
    pub closed spec fn spec_vals(self) -> Seq<V> {
        self.inner.spec_vals()
    }

    /// Structure invariant: established by `new`, preserved forever.
    pub closed spec fn wf(self) -> bool {
        self.inner.wf()
    }

    /// Build the map from key/payload pairs. Fails exactly when some key
    /// holds a byte at or above the alphabet bound, reporting that byte.
    /// Pairs with byte-identical keys collapse: the last one wins.
    pub fn new(p: Vec<(Vec<u8>, V)>) -> (r: Result<Self, InvalidByteError>)
        requires
            forall|i: int| 0 <= i < p@.len() ==> (#[trigger] p@[i].0@).len() >= 1,
            total_len(keys_of(p@)) + 1 < NODE_EMPTY as int,
        ensures
            match r {
                Ok(m) => {
                    &&& m.wf()
                    &&& m.spec_keys() == keys_of(p@)
                    &&& m.spec_vals() == vals_of(p@)
                },
                Err(e) => exists|i: int, j: int|
                    #[trigger] first_invalid_at(keys_of(p@), i, j)
                        && keys_of(p@)[i][j] == e.0,
            },
            (r is Ok) <==> pats_valid(keys_of(p@)),
    {
        match TrieInner::construct(p) {
            Ok(inner) => Ok(TrieMap { inner }),
            Err(e) => Err(e),
        }
    }

    /// The payload of the last stored pair whose key equals `key`, if any.
    pub fn get(&self, key: &Vec<u8>) -> (r: Option<&V>)
        requires
            self.wf(),
        ensures
            match last_match(self.spec_keys(), key@) {
                Some(i) => r matches Some(v) && *v == self.spec_vals()[i],
                None => r is None,
            },
    {
        let pat_id = self.inner.run(key);
        proof {
            lemma_last_match(self.spec_keys(), key@);
        }
        if !pat_id.is_empty() {
            Some(&self.inner.patterns[pat_id.idx()].1)
        } else {
            None
        }
    }
}

/// Membership law: looking up any pattern that the structure was built
/// from finds a pattern with the same bytes, and the found index is the
/// last one carrying those bytes.
pub proof fn lemma_trie_membership(keys: Seq<Seq<u8>>, i: int)
    requires
        0 <= i < keys.len(),
    ensures
        last_match(keys, keys[i]) matches Some(m) && i <= m < keys.len() && keys[m] == keys[i] && (
        forall|j: int| m < j < keys.len() ==> keys[j] != keys[i]),
{
    lemma_last_match(keys, keys[i]);
    match last_match(keys, keys[i]) {
        Some(m) => {
            if m < i {
                assert(keys[i] != keys[i]);
            }
        },
        None => {
            assert(keys[i] != keys[i]);
        },
    }
}

/// Negative-lookup law: a query equal to no stored pattern is not found.
pub proof fn lemma_trie_negative(keys: Seq<Seq<u8>>, q: Seq<u8>)
    requires
        forall|i: int| 0 <= i < keys.len() ==> keys[i] != q,
    ensures
        last_match(keys, q) is None,
{
    lemma_last_match(keys, q);
    match last_match(keys, q) {
        Some(m) => {
            assert(keys[m] != q);
        },
        None => {},
    }
}

/// Re-construction law: two sets built from the same pattern list answer
/// every membership query alike.
pub proof fn lemma_reconstruction_equivalent_set(s1: TrieSet, s2: TrieSet, q: Seq<u8>)
    requires
        s1.spec_patterns() == s2.spec_patterns(),
    ensures
        s1.spec_patterns().contains(q) == s2.spec_patterns().contains(q),
{
}

/// Re-construction law: two maps built from the same key list resolve
/// every lookup to the same key index.
pub proof fn lemma_reconstruction_equivalent_map<V>(m1: TrieMap<V>, m2: TrieMap<V>, q: Seq<u8>)
    requires
        m1.spec_keys() == m2.spec_keys(),
    ensures
        last_match(m1.spec_keys(), q) == last_match(m2.spec_keys(), q),
{
}

} // verus!
