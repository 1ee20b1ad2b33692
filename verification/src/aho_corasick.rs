use vstd::prelude::*;

verus! {

use crate::common::{
    all_assigned, appears, byte_of, byte_valid, code_assigned, ends_at, first_invalid_at,
    initial_bytes, is_suffix_of, lemma_byte_of_code, lemma_empty_suffix, lemma_push_inj,
    lemma_suffix_compare, lemma_suffix_pop, lemma_suffix_push, lemma_suffix_refl,
    lemma_suffix_trans, lemma_total_len_ge_count, lemma_total_len_mono, lemma_total_len_nonneg,
    lemma_total_len_take_step, ord_inj, ord_wf, ordering, pat_valid, pats_of, pats_valid,
    total_len,
};
use crate::{ByteOrd, InvalidByteError, NodeId, PatId, CHAR_MAX, NODE_EMPTY, ORD_EMPTY, PAT_EMPTY};
use vstd::set_lib::set_int_range;

broadcast use vstd::set::group_set_axioms;

/// One automaton state: transition table over compact codes, failure link,
/// and the merged set of pattern identifiers that terminate here.
pub(crate) struct Node {
    pub(crate) next: Vec<NodeId>,
    pub(crate) fail: NodeId,
    pub(crate) accepts: Vec<PatId>,
}

impl Node {
    /// The child reached on code `ord`.
    pub(crate) fn next(&self, ord: ByteOrd) -> (r: NodeId)
        requires
            (ord.0 as int) < self.next@.len(),
        ensures
            r == self.next@[ord.0 as int],
    {
        self.next[ord.idx()]
    }

    /// A fresh node: no transitions, no failure link, no accepts.
    pub(crate) fn default() -> (r: Node)
        ensures
            r.next@.len() == CHAR_MAX as int,
            forall|c: int| 0 <= c < CHAR_MAX as int ==> (#[trigger] r.next@[c]).0 == NODE_EMPTY,
            r.fail.0 == NODE_EMPTY,
            r.accepts@.len() == 0,
    {
        Node {
            next: vec![NodeId(NODE_EMPTY); CHAR_MAX],
            fail: NodeId(NODE_EMPTY),
            accepts: Vec::new(),
        }
    }
}

/// Basic shape of the node arena and its ghost path labels.
pub(crate) open spec fn nodes_basic(nodes: Seq<Node>, paths: Seq<Seq<u8>>) -> bool {
    &&& nodes.len() >= 1
    &&& paths.len() == nodes.len()
    &&& paths[0] == Seq::<u8>::empty()
    &&& forall|n: int|
        0 <= n < nodes.len() ==> (#[trigger] nodes[n]).next@.len() == CHAR_MAX as int
}

/// Transitions carry codes below `mo`, stay inside the arena, return to the
/// root only from the root itself, and extend the source's path label.
pub(crate) open spec fn edges_wf(
    nodes: Seq<Node>,
    paths: Seq<Seq<u8>>,
    ord: Seq<ByteOrd>,
    mo: int,
) -> bool {
    forall|n: int, c: int|
        0 <= n < nodes.len() && 0 <= c < CHAR_MAX as int && (#[trigger] nodes[n].next@[c]).0
            != NODE_EMPTY ==> {
            let m = nodes[n].next@[c].0 as int;
            &&& c < mo
            &&& code_assigned(ord, c)
            &&& 0 <= m < nodes.len()
            &&& (m == 0 ==> n == 0)
            &&& (m != 0 ==> paths[m] == paths[n].push(byte_of(ord, c)))
        }
}

/// A node other than the root is the target of at most one transition.
pub(crate) open spec fn unique_parent(nodes: Seq<Node>) -> bool {
    forall|n1: int, c1: int, n2: int, c2: int|
        0 <= n1 < nodes.len() && 0 <= c1 < CHAR_MAX as int && 0 <= n2 < nodes.len() && 0 <= c2
            < CHAR_MAX as int && (#[trigger] nodes[n1].next@[c1]).0 != NODE_EMPTY
            && nodes[n1].next@[c1].0 == (#[trigger] nodes[n2].next@[c2]).0
            && nodes[n1].next@[c1].0 != 0 ==> n1 == n2 && c1 == c2
}

/// Some transition reaches `m`.
pub(crate) open spec fn has_parent(nodes: Seq<Node>, m: int) -> bool {
    exists|n: int, c: int|
        0 <= n < nodes.len() && 0 <= c < CHAR_MAX as int && (#[trigger] nodes[n].next@[c]).0
            != NODE_EMPTY && (nodes[n].next@[c].0 as int) == m
}

/// Every node other than the root is the target of some transition.
pub(crate) open spec fn parent_exists(nodes: Seq<Node>) -> bool {
    forall|m: int| 1 <= m < nodes.len() ==> #[trigger] has_parent(nodes, m)
}

/// Every identifier stored at a node names a pattern that is a non-empty
/// suffix of the node's path label.
pub(crate) open spec fn accepts_sound(
    nodes: Seq<Node>,
    paths: Seq<Seq<u8>>,
    pats: Seq<Seq<u8>>,
) -> bool {
    forall|n: int, x: int|
        0 <= n < nodes.len() && 0 <= x < nodes[n].accepts@.len() ==> {
            let id = (#[trigger] nodes[n].accepts@[x]).0 as int;
            &&& 0 <= id < pats.len()
            &&& pats[id].len() >= 1
            &&& is_suffix_of(pats[id], paths[n])
        }
}

/// The node reached from `n` by the bytes of `s`, if every step exists.
pub(crate) open spec fn walk(nodes: Seq<Node>, ord: Seq<ByteOrd>, n: int, s: Seq<u8>) -> Option<
    int,
>
    decreases s.len(),
{
    if s.len() == 0 {
        Some(n)
    } else if !byte_valid(s[0]) {
        None
    } else if ord[s[0] as int].0 == ORD_EMPTY {
        None
    } else if nodes[n].next@[ord[s[0] as int].0 as int].0 == NODE_EMPTY {
        None
    } else {
        walk(nodes, ord, nodes[n].next@[ord[s[0] as int].0 as int].0 as int, s.skip(1))
    }
}

/// Every one of the first `bound` patterns walks to a node whose accept
/// set holds its identifier.
pub(crate) open spec fn ac_inserted(
    nodes: Seq<Node>,
    ord: Seq<ByteOrd>,
    pats: Seq<Seq<u8>>,
    bound: int,
) -> bool {
    forall|i: int|
        0 <= i < bound ==> ((#[trigger] walk(nodes, ord, 0, pats[i])) matches Some(n) && 0 <= n
            < nodes.len() && nodes[n].accepts@.contains(PatId(i as u32)))
}

/// The failure link of `n` is set, in range, and leads to a node labelled
/// by a proper suffix of `n`'s label.
pub(crate) open spec fn fail_wf_at(nodes: Seq<Node>, paths: Seq<Seq<u8>>, n: int) -> bool {
    &&& nodes[n].fail.0 != NODE_EMPTY
    &&& 0 <= nodes[n].fail.0 as int && (nodes[n].fail.0 as int) < nodes.len()
    &&& is_suffix_of(paths[nodes[n].fail.0 as int], paths[n])
    &&& paths[nodes[n].fail.0 as int].len() < paths[n].len()
}

/// Every node but the root carries a well-formed failure link.
pub(crate) open spec fn fail_wf(nodes: Seq<Node>, paths: Seq<Seq<u8>>) -> bool {
    forall|n: int| 1 <= n < nodes.len() ==> #[trigger] fail_wf_at(nodes, paths, n)
}

/// The root has a transition for every code of the alphabet.
pub(crate) open spec fn root_total(nodes: Seq<Node>, mo: int) -> bool {
    forall|c: int| 0 <= c < mo ==> (#[trigger] nodes[0].next@[c]).0 != NODE_EMPTY
}

/// Walking a concatenation walks the first part, then the second.
pub(crate) proof fn lemma_walk_append(
    nodes: Seq<Node>,
    ord: Seq<ByteOrd>,
    n: int,
    s1: Seq<u8>,
    s2: Seq<u8>,
)
    ensures
        walk(nodes, ord, n, s1 + s2) == match walk(nodes, ord, n, s1) {
            Some(m) => walk(nodes, ord, m, s2),
            None => None::<int>,
        },
    decreases s1.len(),
{
    if s1.len() == 0 {
        assert(s1 + s2 =~= s2);
    } else {
        assert((s1 + s2)[0] == s1[0]);
        assert((s1 + s2).skip(1) =~= s1.skip(1) + s2);
        let b = s1[0];
        if byte_valid(b) && ord[b as int].0 != ORD_EMPTY && nodes[n].next@[ord[b as int].0 as int].0
            != NODE_EMPTY {
            lemma_walk_append(
                nodes,
                ord,
                nodes[n].next@[ord[b as int].0 as int].0 as int,
                s1.skip(1),
                s2,
            );
        }
    }
}

/// In a pure tree (no transition returns to the root), a successful walk
/// ends at an in-range node labelled by the walked string.
pub(crate) proof fn lemma_walk_path(
    nodes: Seq<Node>,
    paths: Seq<Seq<u8>>,
    ord: Seq<ByteOrd>,
    mo: int,
    n: int,
    s: Seq<u8>,
)
    requires
        nodes_basic(nodes, paths),
        edges_wf(nodes, paths, ord, mo),
        forall|p: int, c: int|
            0 <= p < nodes.len() && 0 <= c < CHAR_MAX as int && (#[trigger] nodes[p].next@[c]).0
                != NODE_EMPTY ==> nodes[p].next@[c].0 != 0,
        ord.len() == CHAR_MAX as int,
        ord_inj(ord),
        forall|b: int|
            0 <= b < CHAR_MAX as int && (#[trigger] ord[b]).0 != ORD_EMPTY ==> (ord[b].0 as int)
                < CHAR_MAX as int,
        0 <= n < nodes.len(),
        walk(nodes, ord, n, s) is Some,
    ensures
        walk(nodes, ord, n, s) matches Some(m) && 0 <= m < nodes.len() && paths[m] == paths[n] + s,
    decreases s.len(),
{
    if s.len() == 0 {
        assert(paths[n] + s =~= paths[n]);
    } else {
        let b = s[0];
        assert(byte_valid(b));
        assert(ord[b as int].0 != ORD_EMPTY);
        let c = ord[b as int].0 as int;
        assert(0 <= c < CHAR_MAX as int);
        let m1 = nodes[n].next@[c].0 as int;
        assert(nodes[n].next@[c].0 != NODE_EMPTY);
        lemma_byte_of_code(ord, b);
        assert(paths[m1] == paths[n].push(b));
        lemma_walk_path(nodes, paths, ord, mo, m1, s.skip(1));
        assert(paths[n].push(b) + s.skip(1) =~= paths[n] + s);
    }
}

/// A successful walk is unaffected by filling empty slots or adding nodes.
pub(crate) proof fn lemma_walk_preserved(
    nodes1: Seq<Node>,
    nodes2: Seq<Node>,
    ord: Seq<ByteOrd>,
    n: int,
    s: Seq<u8>,
)
    requires
        forall|p: int, c: int|
            0 <= p < nodes1.len() && 0 <= c < CHAR_MAX as int && (#[trigger] nodes1[p].next@[c]).0
                != NODE_EMPTY ==> 0 <= nodes1[p].next@[c].0 as int && (nodes1[p].next@[c].0 as int)
                < nodes1.len(),
        nodes2.len() >= nodes1.len(),
        forall|p: int, c: int|
            0 <= p < nodes1.len() && 0 <= c < CHAR_MAX as int && (#[trigger] nodes1[p].next@[c]).0
                != NODE_EMPTY ==> nodes2[p].next@[c] == nodes1[p].next@[c],
        ord.len() == CHAR_MAX as int,
        forall|b: int|
            0 <= b < CHAR_MAX as int && (#[trigger] ord[b]).0 != ORD_EMPTY ==> (ord[b].0 as int)
                < CHAR_MAX as int,
        0 <= n < nodes1.len(),
        walk(nodes1, ord, n, s) is Some,
    ensures
        walk(nodes2, ord, n, s) == walk(nodes1, ord, n, s),
    decreases s.len(),
{
    if s.len() > 0 {
        let b = s[0];
        let c = ord[b as int].0 as int;
        let m1 = nodes1[n].next@[c].0 as int;
        lemma_walk_preserved(nodes1, nodes2, ord, m1, s.skip(1));
    }
}

/// Aho-Corasick automaton: a trie over the patterns completed with failure
/// links and pre-merged accept sets, for single-pass substring scanning.
pub struct AcAutomaton {
    pub(crate) patterns: Vec<Vec<u8>>,
    pub(crate) nodes: Vec<Node>,
    pub(crate) initial_bytes: Vec<u8>,
    pub(crate) ord: Vec<ByteOrd>,
    pub(crate) max_ord: ByteOrd,
    pub(crate) paths: Ghost<Seq<Seq<u8>>>,
}

impl AcAutomaton {
    /// The byte strings of the stored patterns, in construction order.
    pub closed spec fn spec_patterns(self) -> Seq<Seq<u8>> {
        pats_of(self.patterns@)
    }

    /// The number of nodes in the arena.
    pub closed spec fn spec_node_count(self) -> int {
        self.nodes@.len() as int
    }

    /// Whether `b` has a compact code in this automaton's alphabet.
    pub closed spec fn in_alphabet(self, b: u8) -> bool {
        byte_valid(b) && self.ord@[b as int].0 != ORD_EMPTY
    }

    /// Structure invariant established by `construct`.
    pub closed spec fn wf(self) -> bool {
        &&& ord_wf(self.ord@, self.max_ord.0 as int)
        &&& nodes_basic(self.nodes@, self.paths@)
        &&& edges_wf(self.nodes@, self.paths@, self.ord@, self.max_ord.0 as int)
        &&& accepts_sound(self.nodes@, self.paths@, self.spec_patterns())
        &&& ac_inserted(
            self.nodes@,
            self.ord@,
            self.spec_patterns(),
            self.spec_patterns().len() as int,
        )
        &&& fail_wf(self.nodes@, self.paths@)
        &&& root_total(self.nodes@, self.max_ord.0 as int)
        &&& unique_parent(self.nodes@)
        &&& parent_exists(self.nodes@)
        &&& paths_inj(self.paths@, self.nodes@.len() as int)
        &&& paths_alpha(self.paths@, self.ord@, self.nodes@.len() as int)
        &&& pats_are_states(
            self.paths@,
            self.nodes@.len() as int,
            self.spec_patterns(),
            self.spec_patterns().len() as int,
        )
        &&& fail_longest(self.nodes@, self.paths@)
        &&& accepts_complete(self.nodes@, self.paths@, self.spec_patterns())
        &&& accepts_ordered(self.nodes@, self.spec_patterns())
        &&& labels_prefixes(self.paths@, self.nodes@.len() as int, self.spec_patterns())
        &&& alphabet_exact(self.ord@, self.spec_patterns())
        &&& self.spec_patterns().len() < PAT_EMPTY as int
        &&& forall|i: int|
            0 <= i < self.spec_patterns().len() ==> (#[trigger] self.spec_patterns()[i]).len() >= 1
        &&& all_assigned(self.ord@, self.spec_patterns())
    }

    /// The label length of node `n`.
    pub closed spec fn depth_of(self, n: int) -> nat {
        self.paths@[n].len()
    }

    /// The arguments on which `spec_step` is meaningful.
    pub closed spec fn step_ok(self, n: int, c: int) -> bool {
        self.wf() && 0 <= n < self.nodes@.len() && 0 <= c < self.max_ord.0 as int
    }

    /// The total goto function: follow failure links from `n` until a node
    /// has a transition on code `c`; the root always has one.
    pub closed spec fn spec_step(self, n: int, c: int) -> int
        decreases self.depth_of(n)
            when self.step_ok(n, c)
            via Self::spec_step_decreases
    {
        if self.nodes@[n].next@[c].0 != NODE_EMPTY {
            self.nodes@[n].next@[c].0 as int
        } else {
            self.spec_step(self.nodes@[n].fail.0 as int, c)
        }
    }

    #[via_fn]
    proof fn spec_step_decreases(self, n: int, c: int) {
        if self.step_ok(n, c) && self.nodes@[n].next@[c].0 == NODE_EMPTY {
            assert(n != 0);
            assert(fail_wf_at(self.nodes@, self.paths@, n));
            assert(self.step_ok(self.nodes@[n].fail.0 as int, c));
        }
    }

    /// One scanner step on byte `b`: out-of-alphabet bytes reset to root.
    pub closed spec fn spec_next_state(self, n: int, b: u8) -> int {
        if !self.in_alphabet(b) {
            0
        } else {
            self.spec_step(n, self.ord@[b as int].0 as int)
        }
    }

    /// The identifiers reported after reading `b` in state `n`.
    pub closed spec fn spec_out_at(self, n: int, b: u8) -> Seq<PatId> {
        if !self.in_alphabet(b) {
            Seq::empty()
        } else {
            self.nodes@[self.spec_next_state(n, b)].accepts@
        }
    }

    /// The state after scanning `s` from state `n`.
    pub closed spec fn scan_state(self, n: int, s: Seq<u8>) -> int
        decreases s.len(),
    {
        if s.len() == 0 {
            n
        } else {
            self.scan_state(self.spec_next_state(n, s[0]), s.skip(1))
        }
    }

    /// The per-position reported identifier sets for scanning `s` from `n`.
    pub closed spec fn scan_outputs(self, n: int, s: Seq<u8>) -> Seq<Seq<PatId>>
        decreases s.len(),
    {
        if s.len() == 0 {
            Seq::empty()
        } else {
            seq![self.spec_out_at(n, s[0])] + self.scan_outputs(
                self.spec_next_state(n, s[0]),
                s.skip(1),
            )
        }
    }

    /// All reported identifiers for scanning `s` from `n`, in order.
    pub closed spec fn scan_flat(self, n: int, s: Seq<u8>) -> Seq<PatId>
        decreases s.len(),
    {
        if s.len() == 0 {
            Seq::empty()
        } else {
            self.spec_out_at(n, s[0]) + self.scan_flat(self.spec_next_state(n, s[0]), s.skip(1))
        }
    }

    /// Build the automaton: insert every pattern into a trie, then give the
    /// root a transition for every alphabet code and add failure links in
    /// breadth-first order, merging each new node's accept set with its
    /// failure target's. Fails exactly when some byte is at or above the
    /// alphabet bound.
    #[verifier::loop_isolation(false)]
    #[verifier::rlimit(100)]
    pub fn construct(words: Vec<Vec<u8>>) -> (r: Result<AcAutomaton, InvalidByteError>)
        requires
            forall|i: int| 0 <= i < words@.len() ==> (#[trigger] words@[i]@).len() >= 1,
            total_len(pats_of(words@)) + 1 < NODE_EMPTY as int,
        ensures
            match r {
                Ok(a) => {
                    &&& a.wf()
                    &&& a.spec_patterns() == pats_of(words@)
                    &&& pats_valid(pats_of(words@))
                    &&& forall|b: u8|
                        #[trigger] a.in_alphabet(b) <==> (byte_valid(b) && appears(
                            pats_of(words@),
                            b,
                        ))
                    &&& a.spec_node_count() <= 1 + total_len(pats_of(words@))
                },
                Err(e) => exists|i: int, j: int|
                    #[trigger] first_invalid_at(pats_of(words@), i, j) && pats_of(words@)[i][j]
                        == e.0,
            },
            (r is Ok) <==> pats_valid(pats_of(words@)),
    {
        let ghost keysv = pats_of(words@);
        let patterns = words;
        let (ord, max_ord) = match ordering(&patterns) {
            Ok(oc) => oc,
            Err(e) => {
                return Err(e);
            },
        };
        proof {
            assert forall|ii: int| 0 <= ii < patterns@.len() implies byte_valid(
                #[trigger] patterns@[ii]@[0],
            ) by {
                assert(pats_of(patterns@)[ii] == patterns@[ii]@);
                assert(pat_valid(pats_of(patterns@)[ii]));
            }
        }
        let inits = initial_bytes(&patterns);
        proof {
            lemma_total_len_nonneg(keysv);
            lemma_total_len_ge_count(keysv);
        }
        let ghost mo = max_ord.0 as int;
        let mut nodes: Vec<Node> = Vec::new();
        nodes.push(Node::default());
        let ghost mut paths: Seq<Seq<u8>> = seq![Seq::<u8>::empty()];
        let mut i: usize = 0;
        while i < patterns.len()
            invariant
                i <= patterns@.len(),
                nodes_basic(nodes@, paths),
                edges_wf(nodes@, paths, ord@, mo),
                no_root_edges(nodes@),
                unique_parent(nodes@),
                parent_exists(nodes@),
                all_fail_empty(nodes@),
                accepts_sound(nodes@, paths, keysv),
                ac_inserted(nodes@, ord@, keysv, i as int),
                paths_inj(paths, nodes@.len() as int),
                paths_alpha(paths, ord@, nodes@.len() as int),
                pats_are_states(paths, nodes@.len() as int, keysv, i as int),
                accepts_exact(nodes@, paths, keysv, i as int),
                labels_prefixes(paths, nodes@.len() as int, keysv),
                forall|n: int|
                    0 <= n < nodes@.len() ==> #[trigger] row_own(
                        paths,
                        keysv,
                        n,
                        nodes@[n].accepts@,
                    ),
                forall|n: int, x: int|
                    0 <= n < nodes@.len() && 0 <= x < nodes@[n].accepts@.len() ==> ((#[trigger]
                    nodes@[n].accepts@[x]).0 as int) < i as int,
                nodes@.len() <= 1 + total_len(keysv.take(i as int)),
            decreases patterns@.len() - i,
        {
            let word = &patterns[i];
            proof {
                assert(word@ == keysv[i as int]);
                lemma_total_len_take_step(keysv, i as int);
                lemma_total_len_mono(keysv, i as int + 1);
            }
            let mut cur: usize = 0;
            let mut j: usize = 0;
            proof {
                assert(word@.take(0) =~= Seq::<u8>::empty());
            }
            while j < word.len()
                invariant
                    j <= word@.len(),
                    nodes_basic(nodes@, paths),
                    edges_wf(nodes@, paths, ord@, mo),
                    no_root_edges(nodes@),
                    unique_parent(nodes@),
                    parent_exists(nodes@),
                    all_fail_empty(nodes@),
                    accepts_sound(nodes@, paths, keysv),
                    ac_inserted(nodes@, ord@, keysv, i as int),
                    paths_inj(paths, nodes@.len() as int),
                    paths_alpha(paths, ord@, nodes@.len() as int),
                    pats_are_states(paths, nodes@.len() as int, keysv, i as int),
                    accepts_exact(nodes@, paths, keysv, i as int),
                    labels_prefixes(paths, nodes@.len() as int, keysv),
                    forall|n: int|
                        0 <= n < nodes@.len() ==> #[trigger] row_own(
                            paths,
                            keysv,
                            n,
                            nodes@[n].accepts@,
                        ),
                    forall|n: int, x: int|
                        0 <= n < nodes@.len() && 0 <= x < nodes@[n].accepts@.len() ==> ((#[trigger]
                        nodes@[n].accepts@[x]).0 as int) < i as int,
                    nodes@.len() <= 1 + total_len(keysv.take(i as int)) + j as int,
                    (cur as int) < nodes@.len(),
                    walk(nodes@, ord@, 0, word@.take(j as int)) == Some(cur as int),
                decreases word@.len() - j,
            {
                let b = word[j];
                proof {
                    assert(keysv[i as int][j as int] == word@[j as int]);
                }
                let c = ord[b as usize];
                if nodes[cur].next(c).is_empty() {
                    let fresh = nodes.len();
                    let ghost nodes0 = nodes@;
                    let ghost paths0 = paths;
                    nodes[cur].next[c.idx()] = NodeId(fresh as u32);
                    nodes.push(Node::default());
                    proof {
                        paths = paths0.push(paths0[cur as int].push(b));
                        let nodes1 = nodes@;
                        let cid = ord@[b as int].0 as int;
                        assert((fresh as int) < NODE_EMPTY as int);
                        assert(NodeId(fresh as u32).0 as int == fresh as int);
                        assert(nodes1.len() == nodes0.len() + 1);
                        assert(forall|p: int|
                            0 <= p < nodes0.len() && p != cur as int ==> nodes1[p] == nodes0[p]);
                        assert(nodes1[cur as int].next@ == nodes0[cur as int].next@.update(
                            cid,
                            NodeId(fresh as u32),
                        ));
                        assert(nodes1[cur as int].fail == nodes0[cur as int].fail);
                        assert(nodes1[cur as int].accepts == nodes0[cur as int].accepts);
                        assert(nodes_basic(nodes1, paths));
                        assert(forall|p: int, c2: int|
                            0 <= p < nodes1.len() && 0 <= c2 < CHAR_MAX as int && (#[trigger]
                        nodes1[p].next@[c2]).0 != NODE_EMPTY && !(p == cur as int && c2 == cid)
                            ==> p < nodes0.len() && nodes1[p].next@[c2] == nodes0[p].next@[c2]);
                        lemma_byte_of_code(ord@, b);
                        assert forall|p: int, c2: int|
                            0 <= p < nodes1.len() && 0 <= c2 < CHAR_MAX as int && (#[trigger]
                        nodes1[p].next@[c2]).0 != NODE_EMPTY implies {
                            let m = nodes1[p].next@[c2].0 as int;
                            &&& c2 < mo
                            &&& code_assigned(ord@, c2)
                            &&& 0 <= m < nodes1.len()
                            &&& (m == 0 ==> p == 0)
                            &&& (m != 0 ==> paths[m] == paths[p].push(byte_of(ord@, c2)))
                        } by {
                            if p == cur as int && c2 == cid {
                                assert(paths[fresh as int] == paths0[cur as int].push(b));
                            } else {
                                assert(nodes1[p].next@[c2] == nodes0[p].next@[c2]);
                                assert(paths[nodes0[p].next@[c2].0 as int] == paths0[nodes0[p].next@[c2].0 as int]);
                            }
                        }
                        assert(edges_wf(nodes1, paths, ord@, mo));
                        assert(no_root_edges(nodes1));
                        assert forall|n1: int, c1: int, n2: int, c2: int|
                            0 <= n1 < nodes1.len() && 0 <= c1 < CHAR_MAX as int && 0 <= n2
                            < nodes1.len() && 0 <= c2 < CHAR_MAX as int && (#[trigger]
                        nodes1[n1].next@[c1]).0 != NODE_EMPTY && nodes1[n1].next@[c1].0 == (
                        #[trigger] nodes1[n2].next@[c2]).0 && nodes1[n1].next@[c1].0 != 0 implies n1
                            == n2 && c1 == c2 by {
                            if n1 == cur as int && c1 == cid {
                                if !(n2 == cur as int && c2 == cid) {
                                    assert(nodes1[n2].next@[c2] == nodes0[n2].next@[c2]);
                                    assert((nodes0[n2].next@[c2].0 as int) < nodes0.len());
                                    assert(false);
                                }
                            } else if n2 == cur as int && c2 == cid {
                                assert(nodes1[n1].next@[c1] == nodes0[n1].next@[c1]);
                                assert((nodes0[n1].next@[c1].0 as int) < nodes0.len());
                                assert(false);
                            } else {
                                assert(nodes1[n1].next@[c1] == nodes0[n1].next@[c1]);
                                assert(nodes1[n2].next@[c2] == nodes0[n2].next@[c2]);
                            }
                        }
                        assert(unique_parent(nodes1));
                        assert forall|m: int| 1 <= m < nodes1.len() implies #[trigger] has_parent(
                            nodes1,
                            m,
                        ) by {
                            if m == fresh as int {
                                assert(nodes1[cur as int].next@[cid].0 != NODE_EMPTY);
                                assert((nodes1[cur as int].next@[cid].0 as int) == m);
                            } else {
                                assert(has_parent(nodes0, m));
                                let (pp, cc) = choose|pp: int, cc: int|
                                    0 <= pp < nodes0.len() && 0 <= cc < CHAR_MAX as int && (
                                    #[trigger] nodes0[pp].next@[cc]).0 != NODE_EMPTY && (
                                    nodes0[pp].next@[cc].0 as int) == m;
                                assert(nodes1[pp].next@[cc] == nodes0[pp].next@[cc]);
                            }
                        }
                        assert(parent_exists(nodes1));
                        assert(all_fail_empty(nodes1));
                        assert forall|n: int, x: int|
                            0 <= n < nodes1.len() && 0 <= x < nodes1[n].accepts@.len() implies {
                            let id = (#[trigger] nodes1[n].accepts@[x]).0 as int;
                            &&& 0 <= id < keysv.len()
                            &&& keysv[id].len() >= 1
                            &&& is_suffix_of(keysv[id], paths[n])
                        } by {
                            assert(n < nodes0.len());
                            assert(nodes1[n].accepts@ == nodes0[n].accepts@);
                            assert(paths[n] == paths0[n]);
                        }
                        assert(accepts_sound(nodes1, paths, keysv));
                        assert(forall|p: int, c2: int|
                            0 <= p < nodes0.len() && 0 <= c2 < CHAR_MAX as int && (#[trigger]
                        nodes0[p].next@[c2]).0 != NODE_EMPTY ==> nodes1[p].next@[c2]
                            == nodes0[p].next@[c2]);
                        assert forall|ii: int| 0 <= ii < i as int implies ((#[trigger] walk(
                            nodes1,
                            ord@,
                            0,
                            keysv[ii],
                        )) matches Some(n) && 0 <= n < nodes1.len() && nodes1[n].accepts@.contains(
                            PatId(ii as u32),
                        )) by {
                            lemma_walk_preserved(nodes0, nodes1, ord@, 0, keysv[ii]);
                            match walk(nodes0, ord@, 0, keysv[ii]) {
                                Some(n) => {
                                    assert(nodes1[n].accepts@ == nodes0[n].accepts@);
                                },
                                None => {},
                            }
                        }
                        assert(ac_inserted(nodes1, ord@, keysv, i as int));
                        assert forall|m: int|
                            0 <= m < nodes0.len() implies paths0[m] != paths0[cur as int].push(
                            b,
                        ) by {
                            if paths0[m] == paths0[cur as int].push(b) {
                                assert(paths0[m].len() >= 1);
                                assert(m != 0);
                                assert(has_parent(nodes0, m));
                                let (pm, cm) = choose|pm: int, cm: int|
                                    0 <= pm < nodes0.len() && 0 <= cm < CHAR_MAX as int && (
                                    #[trigger] nodes0[pm].next@[cm]).0 != NODE_EMPTY && (
                                    nodes0[pm].next@[cm].0 as int) == m;
                                assert(paths0[m] == paths0[pm].push(byte_of(ord@, cm)));
                                lemma_push_inj(
                                    paths0[pm],
                                    paths0[cur as int],
                                    byte_of(ord@, cm),
                                    b,
                                );
                                assert(pm == cur as int);
                                assert(code_assigned(ord@, cm));
                                let bcm = byte_of(ord@, cm);
                                assert(byte_valid(bcm) && ord@[bcm as int].0 == cm);
                                assert(cm == cid);
                                assert(nodes0[cur as int].next@[cid].0 != NODE_EMPTY);
                                assert(false);
                            }
                        }
                        assert forall|n1: int, n2: int|
                            #![trigger paths[n1], paths[n2]]
                            0 <= n1 < nodes1.len() && 0 <= n2 < nodes1.len() && paths[n1]
                                == paths[n2] implies n1 == n2 by {
                            if n1 < nodes0.len() && n2 < nodes0.len() {
                                assert(paths[n1] == paths0[n1] && paths[n2] == paths0[n2]);
                            } else if n1 == fresh as int && n2 < nodes0.len() {
                                assert(paths0[n2] != paths0[cur as int].push(b));
                                assert(false);
                            } else if n2 == fresh as int && n1 < nodes0.len() {
                                assert(paths0[n1] != paths0[cur as int].push(b));
                                assert(false);
                            }
                        }
                        assert(paths_inj(paths, nodes1.len() as int));
                        assert forall|n: int, jx: int|
                            0 <= n < nodes1.len() && 0 <= jx < paths[n].len() implies byte_valid(
                            #[trigger] paths[n][jx],
                        ) && ord@[paths[n][jx] as int].0 != ORD_EMPTY by {
                            if n < nodes0.len() {
                                assert(paths[n][jx] == paths0[n][jx]);
                            } else {
                                if jx < paths0[cur as int].len() {
                                    assert(paths[n][jx] == paths0[cur as int][jx]);
                                } else {
                                    assert(paths[n][jx] == b);
                                }
                            }
                        }
                        assert(paths_alpha(paths, ord@, nodes1.len() as int));
                        assert forall|ii: int| 0 <= ii < i as int implies #[trigger] is_state(
                            paths,
                            nodes1.len() as int,
                            keysv[ii],
                        ) by {
                            assert(is_state(paths0, nodes0.len() as int, keysv[ii]));
                            let n = choose|n: int|
                                0 <= n < nodes0.len() && (#[trigger] paths0[n]) == keysv[ii];
                            assert(paths[n] == keysv[ii]);
                        }
                        assert(pats_are_states(paths, nodes1.len() as int, keysv, i as int));
                        assert forall|n: int, ii: int|
                            #![trigger paths[n], keysv[ii]]
                            0 <= n < nodes1.len() && 0 <= ii < i as int && paths[n] == keysv[ii]
                            implies nodes1[n].accepts@.contains(PatId(ii as u32)) by {
                            if n == fresh as int {
                                assert(is_state(paths0, nodes0.len() as int, keysv[ii]));
                                let m2 = choose|m2: int|
                                    0 <= m2 < nodes0.len() && (#[trigger] paths0[m2]) == keysv[ii];
                                assert(paths0[m2] != paths0[cur as int].push(b));
                                assert(false);
                            } else {
                                assert(nodes1[n].accepts@ == nodes0[n].accepts@);
                                assert(paths[n] == paths0[n]);
                            }
                        }
                        assert(accepts_exact(nodes1, paths, keysv, i as int));
                        assert forall|n: int| 0 <= n < nodes1.len() implies #[trigger] row_own(
                            paths,
                            keysv,
                            n,
                            nodes1[n].accepts@,
                        ) by {
                            if n < nodes0.len() {
                                assert(row_own(paths0, keysv, n, nodes0[n].accepts@));
                                assert(nodes1[n].accepts@ == nodes0[n].accepts@);
                                assert(paths[n] == paths0[n]);
                            } else {
                                assert(nodes1[n].accepts@.len() == 0);
                            }
                        }
                        lemma_walk_path(nodes0, paths0, ord@, mo, 0, word@.take(j as int));
                        assert(paths0[0] + word@.take(j as int) =~= word@.take(j as int));
                        assert(paths0[cur as int] == word@.take(j as int));
                        assert(paths[fresh as int] =~= keysv[i as int].take(j as int + 1));
                        assert forall|n: int| 1 <= n < nodes1.len() implies exists|i2: int|
                            0 <= i2 < keysv.len() && (#[trigger] paths[n]) == (#[trigger]
                        keysv[i2]).take(paths[n].len() as int) by {
                            if n < nodes0.len() {
                                let i2 = choose|i2: int|
                                    0 <= i2 < keysv.len() && (#[trigger] paths0[n]) == (#[trigger]
                                    keysv[i2]).take(paths0[n].len() as int);
                                assert(paths[n] == keysv[i2].take(paths[n].len() as int));
                            } else {
                                assert(paths[n] == keysv[i as int].take(paths[n].len() as int));
                            }
                        }
                        assert(labels_prefixes(paths, nodes1.len() as int, keysv));
                        lemma_walk_preserved(nodes0, nodes1, ord@, 0, word@.take(j as int));
                    }
                }
                let nxt = nodes[cur].next(c);
                proof {
                    lemma_walk_append(nodes@, ord@, 0, word@.take(j as int), seq![b]);
                    assert(word@.take(j as int + 1) =~= word@.take(j as int) + seq![b]);
                    assert(seq![b].skip(1) =~= Seq::<u8>::empty());
                    assert(seq![b][0] == b);
                    assert(byte_valid(b) && ord@[b as int].0 != ORD_EMPTY);
                    assert(nodes@[cur as int].next@[ord@[b as int].0 as int].0 != NODE_EMPTY);
                    assert(walk(nodes@, ord@, nxt.0 as int, seq![b].skip(1)) == Some(
                        nxt.0 as int,
                    ));
                    assert(walk(nodes@, ord@, cur as int, seq![b]) == Some(nxt.0 as int));
                }
                cur = nxt.idx();
                j += 1;
            }
            proof {
                assert(word@.take(j as int) =~= word@);
            }
            let ghost nodes0 = nodes@;
            let pid = PatId(i as u32);
            nodes[cur].accepts.push(pid);
            proof {
                let nodes1 = nodes@;
                assert(forall|p: int|
                    0 <= p < nodes1.len() && p != cur as int ==> nodes1[p] == nodes0[p]);
                assert(nodes1[cur as int].next@ == nodes0[cur as int].next@);
                assert(nodes1[cur as int].fail == nodes0[cur as int].fail);
                assert(nodes1[cur as int].accepts@ == nodes0[cur as int].accepts@.push(pid));
                assert(forall|p: int|
                    0 <= p < nodes1.len() ==> (#[trigger] nodes1[p]).next@ == nodes0[p].next@);
                assert(forall|p: int, c2: int|
                    0 <= p < nodes0.len() && 0 <= c2 < CHAR_MAX as int && (#[trigger]
                nodes0[p].next@[c2]).0 != NODE_EMPTY ==> nodes1[p].next@[c2] == nodes0[p].next@[c2]);
                assert(nodes_basic(nodes1, paths));
                assert(edges_wf(nodes1, paths, ord@, mo));
                assert(no_root_edges(nodes1));
                assert(unique_parent(nodes1));
                assert forall|m: int| 1 <= m < nodes1.len() implies #[trigger] has_parent(
                    nodes1,
                    m,
                ) by {
                    assert(has_parent(nodes0, m));
                    let (pp, cc) = choose|pp: int, cc: int|
                        0 <= pp < nodes0.len() && 0 <= cc < CHAR_MAX as int && (#[trigger]
                    nodes0[pp].next@[cc]).0 != NODE_EMPTY && (nodes0[pp].next@[cc].0 as int) == m;
                    assert(nodes1[pp].next@[cc] == nodes0[pp].next@[cc]);
                }
                assert(parent_exists(nodes1));
                assert(all_fail_empty(nodes1));
                assert(i as int != PAT_EMPTY as int);
                lemma_walk_path(nodes0, paths, ord@, mo, 0, word@);
                assert(paths[0] + word@ =~= word@);
                assert(paths[cur as int] == word@);
                lemma_suffix_refl(paths[cur as int]);
                assert forall|n: int, x: int|
                    0 <= n < nodes1.len() && 0 <= x < nodes1[n].accepts@.len() implies {
                    let id = (#[trigger] nodes1[n].accepts@[x]).0 as int;
                    &&& 0 <= id < keysv.len()
                    &&& keysv[id].len() >= 1
                    &&& is_suffix_of(keysv[id], paths[n])
                } by {
                    if n == cur as int && x == nodes0[n].accepts@.len() {
                        assert(nodes1[n].accepts@[x] == pid);
                        assert(keysv[i as int] == paths[cur as int]);
                    } else {
                        assert(nodes1[n].accepts@[x] == nodes0[n].accepts@[x]);
                    }
                }
                assert(accepts_sound(nodes1, paths, keysv));
                assert forall|ii: int| 0 <= ii < i as int + 1 implies ((#[trigger] walk(
                    nodes1,
                    ord@,
                    0,
                    keysv[ii],
                )) matches Some(n) && 0 <= n < nodes1.len() && nodes1[n].accepts@.contains(
                    PatId(ii as u32),
                )) by {
                    if ii < i as int {
                        lemma_walk_preserved(nodes0, nodes1, ord@, 0, keysv[ii]);
                        match walk(nodes0, ord@, 0, keysv[ii]) {
                            Some(n) => {
                                assert(nodes0[n].accepts@.contains(PatId(ii as u32)));
                                let x = choose|x: int|
                                    0 <= x < nodes0[n].accepts@.len() && nodes0[n].accepts@[x]
                                        == PatId(ii as u32);
                                if n == cur as int {
                                    assert(nodes1[n].accepts@[x] == PatId(ii as u32));
                                } else {
                                    assert(nodes1[n].accepts@ == nodes0[n].accepts@);
                                }
                            },
                            None => {},
                        }
                    } else {
                        lemma_walk_preserved(nodes0, nodes1, ord@, 0, keysv[ii]);
                        assert(walk(nodes1, ord@, 0, keysv[ii]) == Some(cur as int));
                        assert(nodes1[cur as int].accepts@[nodes1[cur as int].accepts@.len() - 1]
                            == pid);
                        assert(nodes1[cur as int].accepts@.contains(pid));
                    }
                }
                assert(ac_inserted(nodes1, ord@, keysv, i as int + 1));
                assert(nodes1.len() == nodes0.len());
                assert(paths_inj(paths, nodes1.len() as int));
                assert(paths_alpha(paths, ord@, nodes1.len() as int));
                assert forall|ii: int| 0 <= ii < i as int + 1 implies #[trigger] is_state(
                    paths,
                    nodes1.len() as int,
                    keysv[ii],
                ) by {
                    if ii == i as int {
                        assert(paths[cur as int] == keysv[ii]);
                    }
                }
                assert(pats_are_states(paths, nodes1.len() as int, keysv, i as int + 1));
                assert forall|n: int, ii: int|
                    #![trigger paths[n], keysv[ii]]
                    0 <= n < nodes1.len() && 0 <= ii < i as int + 1 && paths[n] == keysv[ii]
                    implies nodes1[n].accepts@.contains(PatId(ii as u32)) by {
                    if ii < i as int {
                        assert(nodes0[n].accepts@.contains(PatId(ii as u32)));
                        let x = choose|x: int|
                            0 <= x < nodes0[n].accepts@.len() && nodes0[n].accepts@[x] == PatId(
                                ii as u32,
                            );
                        if n == cur as int {
                            assert(nodes1[n].accepts@[x] == PatId(ii as u32));
                        } else {
                            assert(nodes1[n].accepts@ == nodes0[n].accepts@);
                        }
                    } else {
                        assert(paths[n] == paths[cur as int]);
                        assert(n == cur as int);
                        assert(nodes1[cur as int].accepts@[nodes1[cur as int].accepts@.len() - 1]
                            == pid);
                        assert(nodes1[cur as int].accepts@.contains(pid));
                    }
                }
                assert(accepts_exact(nodes1, paths, keysv, i as int + 1));
                assert forall|n: int| 0 <= n < nodes1.len() implies #[trigger] row_own(
                    paths,
                    keysv,
                    n,
                    nodes1[n].accepts@,
                ) by {
                    assert(row_own(paths, keysv, n, nodes0[n].accepts@));
                    if n == cur as int {
                        assert(nodes1[n].accepts@ == nodes0[n].accepts@.push(pid));
                        assert(keysv[pid.0 as int] == paths[n]);
                    } else {
                        assert(nodes1[n].accepts@ == nodes0[n].accepts@);
                    }
                }
                assert(labels_prefixes(paths, nodes1.len() as int, keysv));
            }
            i += 1;
        }
        proof {
            assert(keysv.take(keysv.len() as int) =~= keysv);
            assert(nodes@.len() < NODE_EMPTY as int);
        }
        proof {
            assert forall|ii: int| 0 <= ii < keysv.len() implies (#[trigger] keysv[ii]).len() >= 1
            by {
                assert(keysv[ii] == patterns@[ii]@);
            }
        }
        add_failure_links(&mut nodes, &ord, max_ord, Ghost(paths), Ghost(keysv));
        proof {
            lemma_total_len_ge_count(keysv);
        }
        let result = AcAutomaton {
            patterns,
            nodes,
            initial_bytes: inits,
            ord,
            max_ord,
            paths: Ghost(paths),
        };
        proof {
            assert(keysv.take(keysv.len() as int) =~= keysv);
            assert(result.spec_patterns() == keysv);
            assert(alphabet_exact(result.ord@, keysv));
            assert(result.wf());
            assert forall|b: u8| #[trigger]
                result.in_alphabet(b) <==> (byte_valid(b) && appears(pats_of(words@), b)) by {
                if byte_valid(b) {
                    assert((result.ord@[b as int].0 != ORD_EMPTY) <==> appears(keysv, b));
                }
            }
        }
        Ok(result)
    }

    /// Scan `query` byte by byte, reporting for every byte position the
    /// identifiers of the patterns whose occurrence ends exactly there:
    /// nothing else is ever reported, and a text equal to a stored pattern
    /// is always reported at its final byte.
    #[verifier::loop_isolation(false)]
    pub fn run_positions(&self, query: &Vec<u8>) -> (r: Vec<Vec<PatId>>)
        requires
            self.wf(),
        ensures
            r@.len() == query@.len(),
            forall|k: int|
                0 <= k < query@.len() ==> (#[trigger] r@[k])@ == self.scan_outputs(0, query@)[k],
            forall|k: int, x: int|
                0 <= k < query@.len() && 0 <= x < r@[k]@.len() ==> {
                    let id = (#[trigger] r@[k]@[x]).0 as int;
                    &&& 0 <= id < self.spec_patterns().len()
                    &&& self.spec_patterns()[id].len() >= 1
                    &&& is_suffix_of(self.spec_patterns()[id], query@.take(k + 1))
                },
            forall|k: int, i: int|
                0 <= k < query@.len() && 0 <= i < self.spec_patterns().len()
                    && #[trigger] is_suffix_of(self.spec_patterns()[i], query@.take(k + 1))
                    ==> r@[k]@.contains(PatId(i as u32)),
            forall|k: int|
                0 <= k < query@.len() ==> #[trigger] row_ordered(self.spec_patterns(), r@[k]@),
    {
        proof {
            lemma_scan_outputs_len(*self, 0, query@);
            assert(query@.take(0) =~= Seq::<u8>::empty());
        }
        let mut out: Vec<Vec<PatId>> = Vec::new();
        let mut cur: usize = 0;
        let mut k: usize = 0;
        while k < query.len()
            invariant
                k <= query@.len(),
                (cur as int) < self.nodes@.len(),
                cur as int == self.scan_state(0, query@.take(k as int)),
                out@.len() == k as int,
                forall|kk: int|
                    0 <= kk < k as int ==> (#[trigger] out@[kk])@ == self.scan_outputs(
                        0,
                        query@,
                    )[kk],
            decreases query@.len() - k,
        {
            let b = query[k];
            let ghost kk = k as int;
            let ghost st = cur as int;
            proof {
                lemma_scan_outputs_index(*self, 0, query@, kk);
                lemma_scan_append(*self, 0, query@.take(kk), seq![b]);
                assert(query@.take(kk + 1) =~= query@.take(kk) + seq![b]);
                assert(seq![b][0] == b);
                assert(seq![b].skip(1) =~= Seq::<u8>::empty());
            }
            let mut row: Vec<PatId> = Vec::new();
            let mut in_alpha = false;
            if (b as usize) < CHAR_MAX {
                let c = self.ord[b as usize];
                if !c.is_empty() {
                    in_alpha = true;
                    proof {
                        assert(self.in_alphabet(b));
                        assert((c.0 as int) < self.max_ord.0 as int);
                        lemma_step_props(*self, st, c.0 as int);
                    }
                    while self.nodes[cur].next(c).is_empty()
                        invariant
                            (cur as int) < self.nodes@.len(),
                            (c.0 as int) < self.max_ord.0 as int,
                            c == self.ord@[b as int],
                            self.spec_step(st, c.0 as int) == self.spec_step(
                                cur as int,
                                c.0 as int,
                            ),
                        decreases self.paths@[cur as int].len(),
                    {
                        proof {
                            assert(cur as int != 0);
                            assert(fail_wf_at(self.nodes@, self.paths@, cur as int));
                        }
                        cur = self.nodes[cur].fail.idx();
                    }
                    let nxt = self.nodes[cur].next(c);
                    proof {
                        assert(self.spec_step(cur as int, c.0 as int) == nxt.0 as int);
                        assert(self.spec_next_state(st, b) == nxt.0 as int);
                        assert(0 <= nxt.0 as int && (nxt.0 as int) < self.nodes@.len());
                    }
                    cur = nxt.idx();
                    let n_acc = self.nodes[cur].accepts.len();
                    let mut t: usize = 0;
                    while t < n_acc
                        invariant
                            (cur as int) < self.nodes@.len(),
                            t <= self.nodes@[cur as int].accepts@.len(),
                            n_acc as int == self.nodes@[cur as int].accepts@.len(),
                            row@ == self.nodes@[cur as int].accepts@.take(t as int),
                        decreases n_acc - t,
                    {
                        let v = self.nodes[cur].accepts[t];
                        row.push(v);
                        t += 1;
                        proof {
                            assert(self.nodes@[cur as int].accepts@.take(t as int)
                                =~= self.nodes@[cur as int].accepts@.take(t as int - 1).push(v));
                        }
                    }
                    proof {
                        assert(row@ =~= self.nodes@[cur as int].accepts@);
                        assert(self.spec_out_at(st, b) == self.nodes@[cur as int].accepts@);
                    }
                }
            }
            if !in_alpha {
                cur = 0;
                proof {
                    assert(!self.in_alphabet(b));
                    assert(self.spec_next_state(st, b) == 0);
                    assert(self.spec_out_at(st, b) =~= Seq::<PatId>::empty());
                    assert(row@ =~= Seq::<PatId>::empty());
                }
            }
            out.push(row);
            k += 1;
            proof {
                assert(cur as int == self.spec_next_state(st, b));
                assert(seq![b].len() == 1);
                assert(self.scan_state(st, seq![b]) == self.scan_state(
                    self.spec_next_state(st, seq![b][0]),
                    seq![b].skip(1),
                ));
                assert(seq![b].skip(1).len() == 0);
                assert(self.scan_state(self.spec_next_state(st, b), seq![b].skip(1))
                    == self.spec_next_state(st, b));
                assert(self.scan_state(st, seq![b]) == self.spec_next_state(st, b));
                assert(cur as int == self.scan_state(0, query@.take(k as int)));
                assert(out@[kk]@ == self.spec_out_at(st, b));
                assert(out@[kk]@ == self.scan_outputs(0, query@)[kk]);
            }
        }
        proof {
            lemma_empty_suffix(Seq::<u8>::empty());
            lemma_scan_sound(*self, 0, query@, Seq::<u8>::empty());
            assert forall|k2: int, x: int|
                0 <= k2 < query@.len() && 0 <= x < out@[k2]@.len() implies {
                let id = (#[trigger] out@[k2]@[x]).0 as int;
                &&& 0 <= id < self.spec_patterns().len()
                &&& self.spec_patterns()[id].len() >= 1
                &&& is_suffix_of(self.spec_patterns()[id], query@.take(k2 + 1))
            } by {
                assert(out@[k2]@ == self.scan_outputs(0, query@)[k2]);
                assert(out@[k2]@[x] == self.scan_outputs(0, query@)[k2][x]);
                assert(Seq::<u8>::empty() + query@.take(k2 + 1) =~= query@.take(k2 + 1));
            }
            lemma_scan_substring_complete(*self, query@);
            assert forall|k2: int, i: int|
                0 <= k2 < query@.len() && 0 <= i < self.spec_patterns().len()
                    && #[trigger] is_suffix_of(self.spec_patterns()[i], query@.take(k2 + 1))
                implies out@[k2]@.contains(PatId(i as u32)) by {
                assert(self.scan_outputs(0, query@)[k2].contains(PatId(i as u32)));
                assert(out@[k2]@ == self.scan_outputs(0, query@)[k2]);
            }
            assert forall|k2: int| 0 <= k2 < query@.len() implies #[trigger] row_ordered(
                self.spec_patterns(),
                out@[k2]@,
            ) by {
                lemma_scan_row_ordered(*self, query@, k2);
                assert(out@[k2]@ == self.scan_outputs(0, query@)[k2]);
            }
        }
        out
    }

    /// Scan `query` and return every matched pattern identifier, ordered by
    /// the position where its occurrence ends. Every returned identifier
    /// names a stored pattern that occurs in `query`.
    #[verifier::loop_isolation(false)]
    pub fn run(&self, query: &Vec<u8>) -> (r: Vec<PatId>)
        requires
            self.wf(),
        ensures
            r@ == self.scan_flat(0, query@),
            forall|x: int|
                0 <= x < r@.len() ==> {
                    let id = (#[trigger] r@[x]).0 as int;
                    &&& 0 <= id < self.spec_patterns().len()
                    &&& exists|k: int| #[trigger] ends_at(self.spec_patterns()[id], query@, k)
                },
    {
        let rows = self.run_positions(query);
        proof {
            lemma_scan_outputs_len(*self, 0, query@);
            assert(query@.take(0) =~= Seq::<u8>::empty());
        }
        let mut out: Vec<PatId> = Vec::new();
        let mut k: usize = 0;
        while k < rows.len()
            invariant
                rows@.len() == query@.len(),
                k <= rows@.len(),
                out@ == self.scan_flat(0, query@.take(k as int)),
                forall|kk: int|
                    0 <= kk < query@.len() ==> (#[trigger] rows@[kk])@ == self.scan_outputs(
                        0,
                        query@,
                    )[kk],
                forall|kk: int, x: int|
                    0 <= kk < query@.len() && 0 <= x < rows@[kk]@.len() ==> {
                        let id = (#[trigger] rows@[kk]@[x]).0 as int;
                        &&& 0 <= id < self.spec_patterns().len()
                        &&& is_suffix_of(self.spec_patterns()[id], query@.take(kk + 1))
                    },
                forall|x: int|
                    0 <= x < out@.len() ==> {
                        let id = (#[trigger] out@[x]).0 as int;
                        &&& 0 <= id < self.spec_patterns().len()
                        &&& exists|kk: int| #[trigger] ends_at(self.spec_patterns()[id], query@, kk)
                    },
            decreases rows@.len() - k,
        {
            let ghost kk = k as int;
            let ghost b = query@[kk];
            let ghost st = self.scan_state(0, query@.take(kk));
            let ghost out0 = out@;
            proof {
                lemma_scan_outputs_index(*self, 0, query@, kk);
                lemma_scan_append(*self, 0, query@.take(kk), seq![b]);
                assert(query@.take(kk + 1) =~= query@.take(kk) + seq![b]);
                assert(seq![b][0] == b);
                assert(seq![b].skip(1) =~= Seq::<u8>::empty());
                assert(self.scan_flat(st, seq![b]) == self.spec_out_at(st, b) + self.scan_flat(
                    self.spec_next_state(st, b),
                    Seq::<u8>::empty(),
                ));
                assert(self.spec_out_at(st, b) + Seq::<PatId>::empty() =~= self.spec_out_at(
                    st,
                    b,
                ));
                assert(self.scan_flat(0, query@.take(kk + 1)) == self.scan_flat(
                    0,
                    query@.take(kk),
                ) + self.spec_out_at(st, b));
                assert(rows@[kk]@ == self.spec_out_at(st, b));
            }
            let row_len = rows[k].len();
            let mut t: usize = 0;
            while t < row_len
                invariant
                    k < rows@.len(),
                    t <= rows@[k as int]@.len(),
                    row_len as int == rows@[k as int]@.len(),
                    out@ == self.scan_flat(0, query@.take(k as int)) + rows@[k as int]@.take(
                        t as int,
                    ),
                decreases row_len - t,
            {
                let v = rows[k][t];
                out.push(v);
                t += 1;
                proof {
                    assert(self.scan_flat(0, query@.take(k as int)) + rows@[k as int]@.take(
                        t as int,
                    ) =~= (self.scan_flat(0, query@.take(k as int)) + rows@[k as int]@.take(
                        t as int - 1,
                    )).push(v));
                }
            }
            k += 1;
            proof {
                assert(rows@[kk]@.take(rows@[kk]@.len() as int) =~= rows@[kk]@);
                assert(out@ == self.scan_flat(0, query@.take(kk)) + rows@[kk]@);
                assert(out@ == self.scan_flat(0, query@.take(k as int)));
                assert forall|x: int| 0 <= x < out@.len() implies {
                    let id = (#[trigger] out@[x]).0 as int;
                    &&& 0 <= id < self.spec_patterns().len()
                    &&& exists|kx: int| #[trigger] ends_at(self.spec_patterns()[id], query@, kx)
                } by {
                    if x < out0.len() {
                        assert(out@[x] == out0[x]);
                    } else {
                        let xo = x - out0.len();
                        assert(out@[x] == rows@[kk]@[xo]);
                        assert(is_suffix_of(
                            self.spec_patterns()[rows@[kk]@[xo].0 as int],
                            query@.take(kk + 1),
                        ));
                        assert(ends_at(self.spec_patterns()[out@[x].0 as int], query@, kk));
                    }
                }
            }
        }
        proof {
            assert(query@.take(query@.len() as int) =~= query@);
        }
        out
    }

    /// The pattern bytes stored under identifier `id`.
    pub fn get_pat(&self, id: PatId) -> (r: &Vec<u8>)
        requires
            (id.0 as int) < self.spec_patterns().len(),
        ensures
            r@ == self.spec_patterns()[id.0 as int],
    {
        &self.patterns[id.idx()]
    }
}

/// There is a node among the first `len` whose label is exactly `s`.
pub(crate) open spec fn is_state(paths: Seq<Seq<u8>>, len: int, s: Seq<u8>) -> bool {
    exists|n: int| 0 <= n < len && (#[trigger] paths[n]) == s
}

/// Distinct nodes carry distinct labels.
pub(crate) open spec fn paths_inj(paths: Seq<Seq<u8>>, len: int) -> bool {
    forall|n1: int, n2: int|
        #![trigger paths[n1], paths[n2]]
        0 <= n1 < len && 0 <= n2 < len && paths[n1] == paths[n2] ==> n1 == n2
}

/// Every byte of every node label has a compact code.
pub(crate) open spec fn paths_alpha(paths: Seq<Seq<u8>>, ord: Seq<ByteOrd>, len: int) -> bool {
    forall|n: int, j: int|
        0 <= n < len && 0 <= j < paths[n].len() ==> byte_valid(#[trigger] paths[n][j])
            && ord[paths[n][j] as int].0 != ORD_EMPTY
}

/// Every one of the first `bound` patterns labels some node.
pub(crate) open spec fn pats_are_states(
    paths: Seq<Seq<u8>>,
    len: int,
    pats: Seq<Seq<u8>>,
    bound: int,
) -> bool {
    forall|i: int| 0 <= i < bound ==> #[trigger] is_state(paths, len, pats[i])
}

/// Label `paths[f]` is at least as long as every label among the first
/// `len` that is a proper suffix of `paths[n]`.
pub(crate) open spec fn longest_suffix_at(paths: Seq<Seq<u8>>, len: int, n: int, f: int) -> bool {
    forall|m: int|
        0 <= m < len && #[trigger] is_suffix_of(paths[m], paths[n]) && paths[m].len()
            < paths[n].len() ==> paths[m].len() <= paths[f].len()
}

/// Every pattern that is a suffix of label `paths[n]` has its identifier
/// in `row`.
pub(crate) open spec fn row_complete(
    paths: Seq<Seq<u8>>,
    pats: Seq<Seq<u8>>,
    n: int,
    row: Seq<PatId>,
) -> bool {
    forall|i: int|
        0 <= i < pats.len() && #[trigger] is_suffix_of(pats[i], paths[n]) ==> row.contains(
            PatId(i as u32),
        )
}

/// `row` lists identifiers in merge order: patterns of strictly greater
/// length first, byte-identical patterns by increasing identifier. Such a
/// row holds no identifier twice.
pub open spec fn row_ordered(pats: Seq<Seq<u8>>, row: Seq<PatId>) -> bool {
    forall|x: int, y: int|
        #![trigger row[x], row[y]]
        0 <= x < y < row.len() ==> (pats[row[x].0 as int].len() > pats[row[y].0 as int].len() || (
        pats[row[x].0 as int].len() == pats[row[y].0 as int].len() && row[x].0 < row[y].0))
}

/// The accept row of a node whose failure accepts were not merged yet:
/// every identifier names a pattern equal to the node's label, and the
/// identifiers increase.
pub(crate) open spec fn row_own(
    paths: Seq<Seq<u8>>,
    pats: Seq<Seq<u8>>,
    n: int,
    row: Seq<PatId>,
) -> bool {
    &&& forall|x: int| 0 <= x < row.len() ==> pats[(#[trigger] row[x]).0 as int] == paths[n]
    &&& forall|x: int, y: int|
        #![trigger row[x], row[y]]
        0 <= x < y < row.len() ==> row[x].0 < row[y].0
}

/// An own-only row is in merge order.
pub(crate) proof fn lemma_row_own_ordered(
    paths: Seq<Seq<u8>>,
    pats: Seq<Seq<u8>>,
    n: int,
    row: Seq<PatId>,
)
    requires
        row_own(paths, pats, n, row),
    ensures
        row_ordered(pats, row),
{
}

/// Every node's accept row is in merge order.
pub(crate) open spec fn accepts_ordered(nodes: Seq<Node>, pats: Seq<Seq<u8>>) -> bool {
    forall|n: int| 0 <= n < nodes.len() ==> #[trigger] row_ordered(pats, nodes[n].accepts@)
}

/// Every node label other than the root's is a prefix of some pattern.
pub(crate) open spec fn labels_prefixes(paths: Seq<Seq<u8>>, len: int, pats: Seq<Seq<u8>>) -> bool {
    forall|n: int|
        1 <= n < len ==> exists|i: int|
            0 <= i < pats.len() && (#[trigger] paths[n]) == (#[trigger] pats[i]).take(
                paths[n].len() as int,
            )
}

/// Facts of an enqueued node: in range with a well-formed, longest-suffix
/// failure link and a complete accept set.
pub(crate) open spec fn queued_ok(
    nodes: Seq<Node>,
    paths: Seq<Seq<u8>>,
    keysv: Seq<Seq<u8>>,
    n: int,
) -> bool {
    &&& 1 <= n < nodes.len()
    &&& fail_wf_at(nodes, paths, n)
    &&& longest_suffix_at(paths, nodes.len() as int, n, nodes[n].fail.0 as int)
    &&& row_complete(paths, keysv, n, nodes[n].accepts@)
    &&& row_ordered(keysv, nodes[n].accepts@)
}

/// Queue labels appear in never-decreasing length order.
pub(crate) open spec fn depth_sorted(paths: Seq<Seq<u8>>, que: Seq<NodeId>) -> bool {
    forall|k1: int, k2: int|
        0 <= k1 <= k2 < que.len() ==> paths[(#[trigger] que[k1]).0 as int].len() <= paths[(
        #[trigger] que[k2]).0 as int].len()
}

/// Labels of unprocessed entries stay within one byte of the last
/// processed entry's label.
pub(crate) open spec fn frontier_ok(paths: Seq<Seq<u8>>, que: Seq<NodeId>, qi: int) -> bool {
    qi >= 1 ==> forall|k: int|
        qi <= k < que.len() ==> paths[(#[trigger] que[k]).0 as int].len() <= paths[(que[qi
            - 1].0 as int)].len() + 1
}

/// Every node whose label equals one of the first `bound` patterns holds
/// that pattern's identifier.
pub(crate) open spec fn accepts_exact(
    nodes: Seq<Node>,
    paths: Seq<Seq<u8>>,
    pats: Seq<Seq<u8>>,
    bound: int,
) -> bool {
    forall|n: int, i: int|
        #![trigger paths[n], pats[i]]
        0 <= n < nodes.len() && 0 <= i < bound && paths[n] == pats[i]
            ==> nodes[n].accepts@.contains(PatId(i as u32))
}

/// Every failure link reaches the longest node label that is a proper
/// suffix of its node's label.
pub(crate) open spec fn fail_longest(nodes: Seq<Node>, paths: Seq<Seq<u8>>) -> bool {
    forall|n: int|
        1 <= n < nodes.len() ==> #[trigger] longest_suffix_at(
            paths,
            nodes.len() as int,
            n,
            nodes[n].fail.0 as int,
        )
}

/// Every node's accept set holds every pattern that is a suffix of its
/// label.
pub(crate) open spec fn accepts_complete(
    nodes: Seq<Node>,
    paths: Seq<Seq<u8>>,
    pats: Seq<Seq<u8>>,
) -> bool {
    forall|n: int|
        0 <= n < nodes.len() ==> #[trigger] row_complete(paths, pats, n, nodes[n].accepts@)
}

/// The compressed alphabet holds exactly the bytes of the patterns.
pub(crate) open spec fn alphabet_exact(ord: Seq<ByteOrd>, pats: Seq<Seq<u8>>) -> bool {
    forall|b: u8|
        byte_valid(b) ==> (((#[trigger] ord[b as int]).0 != ORD_EMPTY) <==> appears(pats, b))
}

/// A node with a non-empty label ending in the byte of code `c` is the
/// `c`-child of the node labelled by the rest of its label.
pub(crate) proof fn lemma_parent_decompose(
    nodes: Seq<Node>,
    paths: Seq<Seq<u8>>,
    ord: Seq<ByteOrd>,
    mo: int,
    m: int,
    c: int,
) -> (pm: int)
    requires
        nodes_basic(nodes, paths),
        edges_wf(nodes, paths, ord, mo),
        parent_exists(nodes),
        paths_inj(paths, nodes.len() as int),
        ord_wf(ord, mo),
        0 <= m < nodes.len(),
        paths[m].len() >= 1,
        0 <= c < mo,
        paths[m].last() == byte_of(ord, c),
    ensures
        0 <= pm < nodes.len(),
        paths[pm] == paths[m].drop_last(),
        nodes[pm].next@[c].0 != NODE_EMPTY,
        (nodes[pm].next@[c].0 as int) == m,
{
    assert(m != 0);
    assert(has_parent(nodes, m));
    let (p, cm) = choose|p: int, cm: int|
        0 <= p < nodes.len() && 0 <= cm < CHAR_MAX as int && (#[trigger] nodes[p].next@[cm]).0
            != NODE_EMPTY && (nodes[p].next@[cm].0 as int) == m;
    assert(paths[m] == paths[p].push(byte_of(ord, cm)));
    assert(code_assigned(ord, cm));
    assert(code_assigned(ord, c));
    let b1 = byte_of(ord, cm);
    let b2 = byte_of(ord, c);
    assert(byte_valid(b1) && ord[b1 as int].0 == cm);
    assert(byte_valid(b2) && ord[b2 as int].0 == c);
    assert(b1 == paths[m].last());
    assert(b1 == b2);
    assert(cm == c);
    assert(paths[p] =~= paths[m].drop_last());
    p
}

/// No transition leads back to the root (the trie before completion).
pub(crate) open spec fn no_root_edges(nodes: Seq<Node>) -> bool {
    forall|p: int, c: int|
        0 <= p < nodes.len() && 0 <= c < CHAR_MAX as int && (#[trigger] nodes[p].next@[c]).0
            != NODE_EMPTY ==> nodes[p].next@[c].0 != 0
}

/// No failure link is set yet (the trie before completion).
pub(crate) open spec fn all_fail_empty(nodes: Seq<Node>) -> bool {
    forall|n: int| 0 <= n < nodes.len() ==> (#[trigger] nodes[n]).fail.0 == NODE_EMPTY
}

/// Queue entry `k` is the child of the root, of a node among the first
/// `popped` queue entries, or of node `curi` by a code below `cbound`.
pub(crate) open spec fn parented(
    nodes: Seq<Node>,
    que: Seq<NodeId>,
    popped: int,
    curi: int,
    cbound: int,
    k: int,
) -> bool {
    exists|p: int, cc: int|
        0 <= p < nodes.len() && 0 <= cc < CHAR_MAX as int && (#[trigger] nodes[p].next@[cc]).0
            != NODE_EMPTY && nodes[p].next@[cc].0 as int == que[k].0 as int && (p == 0 || (exists|
        k2: int|
            0 <= k2 < popped && (#[trigger] que[k2]).0 as int == p) || (p == curi && cc < cbound))
}

/// `parented` stays true when the processed prefix grows, the handled-code
/// bound grows, or the old current node is itself processed by now.
pub(crate) proof fn lemma_parented_weaken(
    nodes: Seq<Node>,
    que: Seq<NodeId>,
    popped1: int,
    curi1: int,
    cb1: int,
    popped2: int,
    curi2: int,
    cb2: int,
    k: int,
)
    requires
        parented(nodes, que, popped1, curi1, cb1, k),
        popped1 <= popped2,
        (curi1 == curi2 && cb1 <= cb2) || cb1 <= 0 || (exists|k2: int|
            0 <= k2 < popped2 && (#[trigger] que[k2]).0 as int == curi1),
    ensures
        parented(nodes, que, popped2, curi2, cb2, k),
{
    let (p, cc) = choose|p: int, cc: int|
        0 <= p < nodes.len() && 0 <= cc < CHAR_MAX as int && (#[trigger] nodes[p].next@[cc]).0
            != NODE_EMPTY && nodes[p].next@[cc].0 as int == que[k].0 as int && (p == 0 || (exists|
        k2: int|
            0 <= k2 < popped1 && (#[trigger] que[k2]).0 as int == p) || (p == curi1 && cc < cb1));
    if p == 0 {
    } else if exists|k2: int| 0 <= k2 < popped1 && (#[trigger] que[k2]).0 as int == p {
        let k2 = choose|k2: int| 0 <= k2 < popped1 && (#[trigger] que[k2]).0 as int == p;
        assert(0 <= k2 < popped2 && que[k2].0 as int == p);
    } else {
        assert(p == curi1 && cc < cb1);
    }
}

/// What `parented` gives: a concrete parent transition for entry `k`.
pub(crate) proof fn lemma_parented_unfold(
    nodes: Seq<Node>,
    que: Seq<NodeId>,
    popped: int,
    curi: int,
    cbound: int,
    k: int,
) -> (r: (int, int))
    requires
        parented(nodes, que, popped, curi, cbound, k),
    ensures
        ({
            let (p, cc) = r;
            &&& 0 <= p < nodes.len()
            &&& 0 <= cc < CHAR_MAX as int
            &&& nodes[p].next@[cc].0 != NODE_EMPTY
            &&& nodes[p].next@[cc].0 as int == que[k].0 as int
            &&& (p == 0 || (exists|k2: int|
                0 <= k2 < popped && (#[trigger] que[k2]).0 as int == p) || (p == curi && cc
                < cbound))
        }),
{
    let (p, cc) = choose|p: int, cc: int|
        0 <= p < nodes.len() && 0 <= cc < CHAR_MAX as int && (#[trigger] nodes[p].next@[cc]).0
            != NODE_EMPTY && nodes[p].next@[cc].0 as int == que[k].0 as int && (p == 0 || (exists|
        k2: int|
            0 <= k2 < popped && (#[trigger] que[k2]).0 as int == p) || (p == curi && cc < cbound));
    (p, cc)
}

/// `parented` survives changes that keep every transition table and only
/// lengthen the queue.
pub(crate) proof fn lemma_parented_preserved(
    nodes1: Seq<Node>,
    nodes2: Seq<Node>,
    que1: Seq<NodeId>,
    que2: Seq<NodeId>,
    popped: int,
    curi: int,
    cb: int,
    k: int,
)
    requires
        parented(nodes1, que1, popped, curi, cb, k),
        nodes2.len() == nodes1.len(),
        forall|p: int| 0 <= p < nodes1.len() ==> (#[trigger] nodes2[p]).next@ == nodes1[p].next@,
        que2.len() >= que1.len(),
        0 <= k < que1.len(),
        popped <= que1.len(),
        forall|k2: int| 0 <= k2 < que1.len() ==> (#[trigger] que2[k2]).0 == que1[k2].0,
    ensures
        parented(nodes2, que2, popped, curi, cb, k),
{
    let (p, cc) = choose|p: int, cc: int|
        0 <= p < nodes1.len() && 0 <= cc < CHAR_MAX as int && (#[trigger] nodes1[p].next@[cc]).0
            != NODE_EMPTY && nodes1[p].next@[cc].0 as int == que1[k].0 as int && (p == 0 || (
        exists|k2: int|
            0 <= k2 < popped && (#[trigger] que1[k2]).0 as int == p) || (p == curi && cc < cb));
    assert(nodes2[p].next@[cc] == nodes1[p].next@[cc]);
    assert(que2[k].0 == que1[k].0);
    if !(p == 0) && !(p == curi && cc < cb) {
        let k2 = choose|k2: int| 0 <= k2 < popped && (#[trigger] que1[k2]).0 as int == p;
        assert(que2[k2].0 as int == p);
    }
}

/// At the end of the breadth-first pass every node but the root has been
/// enqueued: its parent chain leads to the root, whose children are
/// enqueued, and every enqueued node's children are enqueued too.
pub(crate) proof fn lemma_all_enqueued(
    nodes: Seq<Node>,
    paths: Seq<Seq<u8>>,
    ord: Seq<ByteOrd>,
    mo: int,
    que: Seq<NodeId>,
    enq: Set<int>,
    m: int,
)
    requires
        nodes_basic(nodes, paths),
        edges_wf(nodes, paths, ord, mo),
        parent_exists(nodes),
        forall|n: int|
            #[trigger] enq.contains(n) <==> exists|k: int|
                0 <= k < que.len() && (#[trigger] que[k]).0 as int == n,
        forall|k: int, cc: int|
            0 <= k < que.len() && 0 <= cc < CHAR_MAX as int && (#[trigger] nodes[(
            que[k].0 as int)].next@[cc]).0 != NODE_EMPTY ==> enq.contains(
                nodes[(que[k].0 as int)].next@[cc].0 as int,
            ),
        forall|cc: int|
            0 <= cc < CHAR_MAX as int && (#[trigger] nodes[0].next@[cc]).0 != NODE_EMPTY
                && nodes[0].next@[cc].0 != 0 ==> enq.contains(nodes[0].next@[cc].0 as int),
        1 <= m < nodes.len(),
    ensures
        enq.contains(m),
    decreases paths[m].len(),
{
    assert(has_parent(nodes, m));
    let (p, c) = choose|p: int, c: int|
        0 <= p < nodes.len() && 0 <= c < CHAR_MAX as int && (#[trigger] nodes[p].next@[c]).0
            != NODE_EMPTY && (nodes[p].next@[c].0 as int) == m;
    assert(paths[m] == paths[p].push(byte_of(ord, c)));
    if p != 0 {
        lemma_all_enqueued(nodes, paths, ord, mo, que, enq, p);
        let k = choose|k: int| 0 <= k < que.len() && (#[trigger] que[k]).0 as int == p;
        assert(nodes[(que[k].0 as int)].next@[c].0 != NODE_EMPTY);
    }
}

/// The effective transition lands in range, on a node whose label is a
/// suffix of the source's label extended by the byte of the code.
pub(crate) proof fn lemma_step_props(a: AcAutomaton, n: int, c: int)
    requires
        a.wf(),
        0 <= n < a.nodes@.len(),
        0 <= c < a.max_ord.0 as int,
    ensures
        0 <= a.spec_step(n, c) && a.spec_step(n, c) < a.nodes@.len(),
        is_suffix_of(a.paths@[a.spec_step(n, c)], a.paths@[n].push(byte_of(a.ord@, c))),
    decreases a.paths@[n].len(),
{
    if a.nodes@[n].next@[c].0 != NODE_EMPTY {
        let m = a.nodes@[n].next@[c].0 as int;
        if m == 0 {
            lemma_empty_suffix(a.paths@[n].push(byte_of(a.ord@, c)));
        } else {
            lemma_suffix_refl(a.paths@[m]);
        }
    } else {
        assert(n != 0);
        assert(fail_wf_at(a.nodes@, a.paths@, n));
        let f = a.nodes@[n].fail.0 as int;
        lemma_step_props(a, f, c);
        lemma_suffix_push(a.paths@[f], a.paths@[n], byte_of(a.ord@, c));
        lemma_suffix_trans(
            a.paths@[a.spec_step(f, c)],
            a.paths@[f].push(byte_of(a.ord@, c)),
            a.paths@[n].push(byte_of(a.ord@, c)),
        );
    }
}

/// One scanner step stays inside the arena.
pub(crate) proof fn lemma_next_state_range(a: AcAutomaton, n: int, b: u8)
    requires
        a.wf(),
        0 <= n < a.nodes@.len(),
    ensures
        0 <= a.spec_next_state(n, b) && a.spec_next_state(n, b) < a.nodes@.len(),
{
    if a.in_alphabet(b) {
        lemma_step_props(a, n, a.ord@[b as int].0 as int);
    }
}

/// One reported set per scanned byte.
pub(crate) proof fn lemma_scan_outputs_len(a: AcAutomaton, n: int, s: Seq<u8>)
    ensures
        a.scan_outputs(n, s).len() == s.len(),
    decreases s.len(),
{
    if s.len() > 0 {
        lemma_scan_outputs_len(a, a.spec_next_state(n, s[0]), s.skip(1));
    }
}

/// Scanning a concatenation scans the first part, then the second from the
/// state the first part reached.
pub(crate) proof fn lemma_scan_append(a: AcAutomaton, n: int, s1: Seq<u8>, s2: Seq<u8>)
    ensures
        a.scan_state(n, s1 + s2) == a.scan_state(a.scan_state(n, s1), s2),
        a.scan_outputs(n, s1 + s2) == a.scan_outputs(n, s1) + a.scan_outputs(
            a.scan_state(n, s1),
            s2,
        ),
        a.scan_flat(n, s1 + s2) == a.scan_flat(n, s1) + a.scan_flat(a.scan_state(n, s1), s2),
    decreases s1.len(),
{
    if s1.len() == 0 {
        assert(s1 + s2 =~= s2);
        assert(a.scan_outputs(n, s1) + a.scan_outputs(a.scan_state(n, s1), s2) =~= a.scan_outputs(
            n,
            s2,
        ));
        assert(a.scan_flat(n, s1) + a.scan_flat(a.scan_state(n, s1), s2) =~= a.scan_flat(n, s2));
    } else {
        assert((s1 + s2)[0] == s1[0]);
        assert((s1 + s2).skip(1) =~= s1.skip(1) + s2);
        let ns = a.spec_next_state(n, s1[0]);
        lemma_scan_append(a, ns, s1.skip(1), s2);
        assert(a.scan_outputs(n, s1 + s2) =~= a.scan_outputs(n, s1) + a.scan_outputs(
            a.scan_state(n, s1),
            s2,
        ));
        assert(a.scan_flat(n, s1 + s2) =~= a.scan_flat(n, s1) + a.scan_flat(
            a.scan_state(n, s1),
            s2,
        ));
    }
}

/// The set reported at position `k` is the one produced by the byte at
/// `k` from the state reached by the first `k` bytes.
pub(crate) proof fn lemma_scan_outputs_index(a: AcAutomaton, n: int, s: Seq<u8>, k: int)
    requires
        0 <= k < s.len(),
    ensures
        a.scan_outputs(n, s).len() == s.len(),
        a.scan_outputs(n, s)[k] == a.spec_out_at(a.scan_state(n, s.take(k)), s[k]),
    decreases k,
{
    lemma_scan_outputs_len(a, n, s);
    let ns = a.spec_next_state(n, s[0]);
    if k == 0 {
        assert(s.take(0) =~= Seq::<u8>::empty());
        lemma_scan_outputs_len(a, ns, s.skip(1));
    } else {
        lemma_scan_outputs_index(a, ns, s.skip(1), k - 1);
        assert(s.skip(1).take(k - 1) =~= s.take(k).skip(1));
        assert(s.take(k)[0] == s[0]);
        assert(s.skip(1)[k - 1] == s[k]);
        assert(a.scan_state(n, s.take(k)) == a.scan_state(ns, s.take(k).skip(1)));
    }
}

/// At the end of the breadth-first pass every node is enqueued, so every
/// failure link is longest-suffix and every accept set is complete.
pub(crate) proof fn lemma_link_finalize(
    nodes: Seq<Node>,
    paths: Seq<Seq<u8>>,
    ord: Seq<ByteOrd>,
    mo: int,
    que: Seq<NodeId>,
    enq: Set<int>,
    keysv: Seq<Seq<u8>>,
)
    requires
        nodes_basic(nodes, paths),
        edges_wf(nodes, paths, ord, mo),
        parent_exists(nodes),
        forall|n: int|
            #[trigger] enq.contains(n) <==> exists|k: int|
                0 <= k < que.len() && (#[trigger] que[k]).0 as int == n,
        forall|k: int, cc: int|
            0 <= k < que.len() && 0 <= cc < CHAR_MAX as int && (#[trigger] nodes[(
            que[k].0 as int)].next@[cc]).0 != NODE_EMPTY ==> enq.contains(
                nodes[(que[k].0 as int)].next@[cc].0 as int,
            ),
        forall|cc: int|
            0 <= cc < CHAR_MAX as int && (#[trigger] nodes[0].next@[cc]).0 != NODE_EMPTY
                && nodes[0].next@[cc].0 != 0 ==> enq.contains(nodes[0].next@[cc].0 as int),
        forall|k: int|
            0 <= k < que.len() ==> #[trigger] queued_ok(nodes, paths, keysv, (que[k].0 as int)),
        forall|n: int|
            0 <= n < nodes.len() && !enq.contains(n) ==> #[trigger] row_own(
                paths,
                keysv,
                n,
                nodes[n].accepts@,
            ),
        forall|i: int| 0 <= i < keysv.len() ==> (#[trigger] keysv[i]).len() >= 1,
    ensures
        fail_wf(nodes, paths),
        fail_longest(nodes, paths),
        accepts_complete(nodes, paths, keysv),
        accepts_ordered(nodes, keysv),
{
    assert forall|n: int| 1 <= n < nodes.len() implies #[trigger] fail_wf_at(nodes, paths, n) by {
        lemma_all_enqueued(nodes, paths, ord, mo, que, enq, n);
        let k = choose|k: int| 0 <= k < que.len() && (#[trigger] que[k]).0 as int == n;
        assert(queued_ok(nodes, paths, keysv, n));
    }
    assert forall|n: int| 1 <= n < nodes.len() implies #[trigger] longest_suffix_at(
        paths,
        nodes.len() as int,
        n,
        nodes[n].fail.0 as int,
    ) by {
        lemma_all_enqueued(nodes, paths, ord, mo, que, enq, n);
        let k = choose|k: int| 0 <= k < que.len() && (#[trigger] que[k]).0 as int == n;
        assert(queued_ok(nodes, paths, keysv, n));
    }
    assert forall|n: int| 1 <= n < nodes.len() implies #[trigger] row_complete(
        paths,
        keysv,
        n,
        nodes[n].accepts@,
    ) by {
        lemma_all_enqueued(nodes, paths, ord, mo, que, enq, n);
        let k = choose|k: int| 0 <= k < que.len() && (#[trigger] que[k]).0 as int == n;
        assert(queued_ok(nodes, paths, keysv, n));
    }
    assert forall|i2: int|
        0 <= i2 < keysv.len() && #[trigger] is_suffix_of(keysv[i2], paths[0]) implies
        nodes[0].accepts@.contains(PatId(i2 as u32)) by {
        assert(keysv[i2].len() >= 1);
        assert(keysv[i2].len() <= paths[0].len());
        assert(false);
    }
    assert(row_complete(paths, keysv, 0, nodes[0].accepts@));
    assert forall|n: int| 0 <= n < nodes.len() implies #[trigger] row_ordered(
        keysv,
        nodes[n].accepts@,
    ) by {
        if enq.contains(n) {
            let k = choose|k: int| 0 <= k < que.len() && (#[trigger] que[k]).0 as int == n;
            assert(queued_ok(nodes, paths, keysv, n));
        } else {
            assert(row_own(paths, keysv, n, nodes[n].accepts@));
            lemma_row_own_ordered(paths, keysv, n, nodes[n].accepts@);
        }
    }
}

/// The effective transition reaches the longest node label that is a
/// suffix of the source's label extended by the byte of the code.
pub(crate) proof fn lemma_step_longest(a: AcAutomaton, n: int, c: int)
    requires
        a.wf(),
        0 <= n < a.nodes@.len(),
        0 <= c < a.max_ord.0 as int,
    ensures
        forall|m: int|
            0 <= m < a.nodes@.len() && #[trigger] is_suffix_of(
                a.paths@[m],
                a.paths@[n].push(byte_of(a.ord@, c)),
            ) ==> a.paths@[m].len() <= a.paths@[a.spec_step(n, c)].len(),
    decreases a.paths@[n].len(),
{
    let paths = a.paths@;
    let bb = byte_of(a.ord@, c);
    let ext = paths[n].push(bb);
    let ln = a.nodes@.len() as int;
    if a.nodes@[n].next@[c].0 != NODE_EMPTY {
        let t = a.nodes@[n].next@[c].0 as int;
        if t == 0 {
            assert(n == 0);
            assert forall|m: int|
                0 <= m < ln && #[trigger] is_suffix_of(paths[m], ext) implies paths[m].len()
                <= paths[a.spec_step(n, c)].len() by {
                if paths[m].len() >= 1 {
                    lemma_suffix_pop(paths[m], paths[n], bb);
                    let pm = lemma_parent_decompose(
                        a.nodes@,
                        paths,
                        a.ord@,
                        a.max_ord.0 as int,
                        m,
                        c,
                    );
                    assert(paths[pm].len() == 0);
                    assert(paths[pm] =~= Seq::<u8>::empty());
                    assert(paths[pm] == paths[0]);
                    assert(pm == 0);
                    assert((a.nodes@[pm].next@[c].0 as int) == m);
                    assert(m == 0);
                    assert(false);
                }
            }
        } else {
            assert(paths[t] == ext);
        }
    } else {
        assert(n != 0);
        let f = a.nodes@[n].fail.0 as int;
        assert(fail_wf_at(a.nodes@, a.paths@, n));
        assert(longest_suffix_at(paths, ln, n, f));
        lemma_step_longest(a, f, c);
        assert forall|m: int|
            0 <= m < ln && #[trigger] is_suffix_of(paths[m], ext) implies paths[m].len()
            <= paths[a.spec_step(n, c)].len() by {
            if paths[m].len() >= 1 {
                lemma_suffix_pop(paths[m], paths[n], bb);
                let pm = lemma_parent_decompose(a.nodes@, paths, a.ord@, a.max_ord.0 as int, m, c);
                assert(is_suffix_of(paths[pm], paths[n]));
                if paths[pm].len() == paths[n].len() {
                    assert(paths[pm] =~= paths[n].subrange(0, paths[n].len() as int));
                    assert(paths[n].subrange(0, paths[n].len() as int) =~= paths[n]);
                    assert(pm == n);
                    assert(false);
                } else {
                    assert(paths[pm].len() <= paths[f].len());
                    lemma_suffix_compare(paths[pm], paths[f], paths[n]);
                    lemma_suffix_push(paths[pm], paths[f], bb);
                    assert(is_suffix_of(paths[m], paths[f].push(bb)));
                }
            }
        }
    }
}

/// From a state dominating every label-suffix of the consumed text, one
/// scanner step reaches the state dominating every label-suffix of the
/// text extended by the byte read.
pub(crate) proof fn lemma_domination_step(a: AcAutomaton, n: int, t: Seq<u8>, b: u8)
    requires
        a.wf(),
        0 <= n < a.nodes@.len(),
        is_suffix_of(a.paths@[n], t),
        forall|m: int|
            0 <= m < a.nodes@.len() && #[trigger] is_suffix_of(a.paths@[m], t)
                ==> a.paths@[m].len() <= a.paths@[n].len(),
    ensures
        0 <= a.spec_next_state(n, b) && a.spec_next_state(n, b) < a.nodes@.len(),
        is_suffix_of(a.paths@[a.spec_next_state(n, b)], t.push(b)),
        forall|m: int|
            0 <= m < a.nodes@.len() && #[trigger] is_suffix_of(a.paths@[m], t.push(b))
                ==> a.paths@[m].len() <= a.paths@[a.spec_next_state(n, b)].len(),
{
    let paths = a.paths@;
    let ln = a.nodes@.len() as int;
    let ns = a.spec_next_state(n, b);
    if a.in_alphabet(b) {
        let c = a.ord@[b as int].0 as int;
        lemma_byte_of_code(a.ord@, b);
        lemma_step_props(a, n, c);
        lemma_step_longest(a, n, c);
        lemma_suffix_push(paths[n], t, b);
        lemma_suffix_trans(paths[ns], paths[n].push(b), t.push(b));
        assert forall|m: int|
            0 <= m < ln && #[trigger] is_suffix_of(paths[m], t.push(b)) implies paths[m].len()
            <= paths[ns].len() by {
            if paths[m].len() >= 1 {
                lemma_suffix_pop(paths[m], t, b);
                let pm = lemma_parent_decompose(a.nodes@, paths, a.ord@, a.max_ord.0 as int, m, c);
                assert(is_suffix_of(paths[pm], t));
                assert(paths[pm].len() <= paths[n].len());
                lemma_suffix_compare(paths[pm], paths[n], t);
                lemma_suffix_push(paths[pm], paths[n], b);
                assert(is_suffix_of(paths[m], paths[n].push(b)));
            }
        }
    } else {
        lemma_empty_suffix(t.push(b));
        assert forall|m: int|
            0 <= m < ln && #[trigger] is_suffix_of(paths[m], t.push(b)) implies paths[m].len()
            <= paths[ns].len() by {
            if paths[m].len() >= 1 {
                lemma_suffix_pop(paths[m], t, b);
                assert(paths[m][paths[m].len() - 1] == b);
                assert(byte_valid(b) && a.ord@[b as int].0 != ORD_EMPTY);
                assert(false);
            }
        }
    }
}

/// Completeness of scanning: starting from the state dominating every
/// label-suffix of the consumed text, a stored pattern ending at offset
/// `k` of the rest is reported there.
pub(crate) proof fn lemma_scan_complete_rec(
    a: AcAutomaton,
    n: int,
    s: Seq<u8>,
    t: Seq<u8>,
    k: int,
    i: int,
)
    requires
        a.wf(),
        0 <= n < a.nodes@.len(),
        is_suffix_of(a.paths@[n], t),
        forall|m: int|
            0 <= m < a.nodes@.len() && #[trigger] is_suffix_of(a.paths@[m], t)
                ==> a.paths@[m].len() <= a.paths@[n].len(),
        0 <= k < s.len(),
        0 <= i < a.spec_patterns().len(),
        is_suffix_of(a.spec_patterns()[i], t + s.take(k + 1)),
    ensures
        a.scan_outputs(n, s)[k].contains(PatId(i as u32)),
    decreases s.len(),
{
    let paths = a.paths@;
    let ln = a.nodes@.len() as int;
    let pats = a.spec_patterns();
    let b = s[0];
    let ns = a.spec_next_state(n, b);
    lemma_domination_step(a, n, t, b);
    if k == 0 {
        assert(t + s.take(1) =~= t.push(b));
        assert(is_suffix_of(pats[i], t.push(b)));
        assert(pats[i].len() >= 1);
        lemma_suffix_pop(pats[i], t, b);
        assert(pats[i][pats[i].len() - 1] == b);
        assert(byte_valid(b) && a.ord@[b as int].0 != ORD_EMPTY);
        assert(a.in_alphabet(b));
        assert(is_state(paths, ln, pats[i]));
        let mi = choose|mi: int| 0 <= mi < ln && (#[trigger] paths[mi]) == pats[i];
        assert(is_suffix_of(paths[mi], t.push(b)));
        assert(paths[mi].len() <= paths[ns].len());
        lemma_suffix_compare(pats[i], paths[ns], t.push(b));
        assert(row_complete(paths, pats, ns, a.nodes@[ns].accepts@));
        assert(a.nodes@[ns].accepts@.contains(PatId(i as u32)));
        assert(a.scan_outputs(n, s)[0] == a.spec_out_at(n, b));
        assert(a.spec_out_at(n, b) == a.nodes@[ns].accepts@);
    } else {
        lemma_scan_outputs_len(a, ns, s.skip(1));
        assert(t.push(b) + s.skip(1).take(k - 1 + 1) =~= t + s.take(k + 1));
        assert(is_suffix_of(pats[i], t.push(b) + s.skip(1).take(k - 1 + 1)));
        lemma_scan_complete_rec(a, ns, s.skip(1), t.push(b), k - 1, i);
        assert(a.scan_outputs(n, s)[k] == a.scan_outputs(ns, s.skip(1))[k - 1]);
    }
}

/// Substring-completeness law: every stored pattern that occurs in the
/// scanned text is reported at the position where its occurrence ends.
pub proof fn lemma_scan_substring_complete(a: AcAutomaton, s: Seq<u8>)
    requires
        a.wf(),
    ensures
        forall|k: int, i: int|
            0 <= k < s.len() && 0 <= i < a.spec_patterns().len() && #[trigger] is_suffix_of(
                a.spec_patterns()[i],
                s.take(k + 1),
            ) ==> a.scan_outputs(0, s)[k].contains(PatId(i as u32)),
{
    lemma_empty_suffix(Seq::<u8>::empty());
    assert forall|k: int, i: int|
        0 <= k < s.len() && 0 <= i < a.spec_patterns().len() && #[trigger] is_suffix_of(
            a.spec_patterns()[i],
            s.take(k + 1),
        ) implies a.scan_outputs(0, s)[k].contains(PatId(i as u32)) by {
        assert(Seq::<u8>::empty() + s.take(k + 1) =~= s.take(k + 1));
        lemma_scan_complete_rec(a, 0, s, Seq::<u8>::empty(), k, i);
    }
}

/// The scanner state stays inside the arena.
pub(crate) proof fn lemma_scan_state_range(a: AcAutomaton, n: int, s: Seq<u8>)
    requires
        a.wf(),
        0 <= n < a.nodes@.len(),
    ensures
        0 <= a.scan_state(n, s) && a.scan_state(n, s) < a.nodes@.len(),
    decreases s.len(),
{
    if s.len() > 0 {
        lemma_next_state_range(a, n, s[0]);
        lemma_scan_state_range(a, a.spec_next_state(n, s[0]), s.skip(1));
    }
}

/// Each reported row is in merge order.
pub(crate) proof fn lemma_scan_row_ordered(a: AcAutomaton, s: Seq<u8>, k: int)
    requires
        a.wf(),
        0 <= k < s.len(),
    ensures
        a.scan_outputs(0, s).len() == s.len(),
        row_ordered(a.spec_patterns(), a.scan_outputs(0, s)[k]),
{
    lemma_scan_outputs_index(a, 0, s, k);
    lemma_scan_state_range(a, 0, s.take(k));
    let st = a.scan_state(0, s.take(k));
    let b = s[k];
    if a.in_alphabet(b) {
        lemma_next_state_range(a, st, b);
        assert(a.spec_out_at(st, b) == a.nodes@[a.spec_next_state(st, b)].accepts@);
        assert(row_ordered(a.spec_patterns(), a.nodes@[a.spec_next_state(st, b)].accepts@));
    } else {
        assert(a.spec_out_at(st, b) == Seq::<PatId>::empty());
    }
}

/// Two rows in merge order with the same members are equal.
pub proof fn lemma_row_ordered_unique(pats: Seq<Seq<u8>>, r1: Seq<PatId>, r2: Seq<PatId>)
    requires
        row_ordered(pats, r1),
        row_ordered(pats, r2),
        forall|id: PatId| #[trigger] r1.contains(id) <==> #[trigger] r2.contains(id),
    ensures
        r1 == r2,
    decreases r1.len(),
{
    if r1.len() == 0 {
        if r2.len() > 0 {
            assert(r2.contains(r2[0]));
            assert(r1.contains(r2[0]));
            assert(false);
        }
        assert(r1 =~= r2);
    } else if r2.len() == 0 {
        assert(r1.contains(r1[0]));
        assert(r2.contains(r1[0]));
        assert(false);
    } else {
        assert(r1.contains(r1[0]));
        assert(r2.contains(r1[0]));
        let p = choose|p: int| 0 <= p < r2.len() && r2[p] == r1[0];
        assert(r2.contains(r2[0]));
        assert(r1.contains(r2[0]));
        let q = choose|q: int| 0 <= q < r1.len() && r1[q] == r2[0];
        if p > 0 && q > 0 {
            assert(pats[r2[0].0 as int].len() > pats[r2[p].0 as int].len() || (pats[r2[0].0 as int].len()
                == pats[r2[p].0 as int].len() && r2[0].0 < r2[p].0));
            assert(pats[r1[0].0 as int].len() > pats[r1[q].0 as int].len() || (pats[r1[0].0 as int].len()
                == pats[r1[q].0 as int].len() && r1[0].0 < r1[q].0));
            assert(false);
        }
        assert(r1[0] == r2[0]);
        let t1 = r1.skip(1);
        let t2 = r2.skip(1);
        assert forall|x: int, y: int|
            #![trigger t1[x], t1[y]]
            0 <= x < y < t1.len() implies (pats[t1[x].0 as int].len() > pats[t1[y].0 as int].len()
            || (pats[t1[x].0 as int].len() == pats[t1[y].0 as int].len() && t1[x].0
                < t1[y].0)) by {
            assert(t1[x] == r1[x + 1]);
            assert(t1[y] == r1[y + 1]);
        }
        assert forall|x: int, y: int|
            #![trigger t2[x], t2[y]]
            0 <= x < y < t2.len() implies (pats[t2[x].0 as int].len() > pats[t2[y].0 as int].len()
            || (pats[t2[x].0 as int].len() == pats[t2[y].0 as int].len() && t2[x].0
                < t2[y].0)) by {
            assert(t2[x] == r2[x + 1]);
            assert(t2[y] == r2[y + 1]);
        }
        assert forall|id: PatId| #[trigger] t1.contains(id) implies #[trigger] t2.contains(id) by {
            let x = choose|x: int| 0 <= x < t1.len() && t1[x] == id;
            assert(r1[x + 1] == id);
            assert(r1.contains(id));
            assert(r2.contains(id));
            let y = choose|y: int| 0 <= y < r2.len() && r2[y] == id;
            if y == 0 {
                assert(r1[x + 1] == r1[0]);
                assert(false);
            }
            assert(t2[y - 1] == id);
        }
        assert forall|id: PatId| #[trigger] t2.contains(id) implies #[trigger] t1.contains(id) by {
            let x = choose|x: int| 0 <= x < t2.len() && t2[x] == id;
            assert(r2[x + 1] == id);
            assert(r2.contains(id));
            assert(r1.contains(id));
            let y = choose|y: int| 0 <= y < r1.len() && r1[y] == id;
            if y == 0 {
                assert(r2[x + 1] == r2[0]);
                assert(false);
            }
            assert(t1[y - 1] == id);
        }
        lemma_row_ordered_unique(pats, t1, t2);
        assert forall|j: int| 0 <= j < r1.len() implies r1[j] == r2[j] by {
            if j > 0 {
                assert(t1[j - 1] == r1[j]);
                assert(t2[j - 1] == r2[j]);
            }
        }
        assert(r1 =~= r2);
    }
}

/// Re-construction law: automatons built from the same pattern list
/// produce identical reports — the same row at every position and the same
/// flat output — for every text.
pub proof fn lemma_reconstruction_same_outputs(a1: AcAutomaton, a2: AcAutomaton, q: Seq<u8>)
    requires
        a1.wf(),
        a2.wf(),
        a1.spec_patterns() == a2.spec_patterns(),
    ensures
        a1.scan_outputs(0, q) == a2.scan_outputs(0, q),
        a1.scan_flat(0, q) == a2.scan_flat(0, q),
{
    lemma_scan_outputs_len(a1, 0, q);
    lemma_scan_outputs_len(a2, 0, q);
    lemma_empty_suffix(Seq::<u8>::empty());
    lemma_scan_sound(a1, 0, q, Seq::<u8>::empty());
    lemma_scan_sound(a2, 0, q, Seq::<u8>::empty());
    lemma_scan_substring_complete(a1, q);
    lemma_scan_substring_complete(a2, q);
    assert forall|k: int| 0 <= k < q.len() implies a1.scan_outputs(0, q)[k] == a2.scan_outputs(
        0,
        q,
    )[k] by {
        lemma_scan_row_ordered(a1, q, k);
        lemma_scan_row_ordered(a2, q, k);
        assert(Seq::<u8>::empty() + q.take(k + 1) =~= q.take(k + 1));
        assert forall|id: PatId| #[trigger] a1.scan_outputs(0, q)[k].contains(id) implies
            #[trigger] a2.scan_outputs(0, q)[k].contains(id) by {
            let x = choose|x: int|
                0 <= x < a1.scan_outputs(0, q)[k].len() && a1.scan_outputs(0, q)[k][x] == id;
            let i = id.0 as int;
            assert(0 <= i < a1.spec_patterns().len());
            assert(is_suffix_of(a1.spec_patterns()[i], q.take(k + 1)));
            assert(a2.scan_outputs(0, q)[k].contains(PatId(i as u32)));
            assert(PatId(i as u32) == id);
        }
        assert forall|id: PatId| #[trigger] a2.scan_outputs(0, q)[k].contains(id) implies
            #[trigger] a1.scan_outputs(0, q)[k].contains(id) by {
            let x = choose|x: int|
                0 <= x < a2.scan_outputs(0, q)[k].len() && a2.scan_outputs(0, q)[k][x] == id;
            let i = id.0 as int;
            assert(0 <= i < a2.spec_patterns().len());
            assert(is_suffix_of(a2.spec_patterns()[i], q.take(k + 1)));
            assert(a1.scan_outputs(0, q)[k].contains(PatId(i as u32)));
            assert(PatId(i as u32) == id);
        }
        lemma_row_ordered_unique(
            a1.spec_patterns(),
            a1.scan_outputs(0, q)[k],
            a2.scan_outputs(0, q)[k],
        );
    }
    assert(a1.scan_outputs(0, q) =~= a2.scan_outputs(0, q));
    lemma_scan_flat_is_concat(a1, 0, q);
    lemma_scan_flat_is_concat(a2, 0, q);
}

/// Re-construction law: two automatons built from the same pattern list
/// report exactly the same identifiers at every position of every text.
pub proof fn lemma_reconstruction_same_reported(
    a1: AcAutomaton,
    a2: AcAutomaton,
    q: Seq<u8>,
    k: int,
    i: int,
)
    requires
        a1.wf(),
        a2.wf(),
        a1.spec_patterns() == a2.spec_patterns(),
        0 <= k < q.len(),
        0 <= i < a1.spec_patterns().len(),
    ensures
        a1.scan_outputs(0, q)[k].contains(PatId(i as u32)) <==> a2.scan_outputs(0, q)[k].contains(
            PatId(i as u32),
        ),
{
    lemma_scan_outputs_len(a1, 0, q);
    lemma_scan_outputs_len(a2, 0, q);
    lemma_scan_substring_complete(a1, q);
    lemma_scan_substring_complete(a2, q);
    lemma_empty_suffix(Seq::<u8>::empty());
    lemma_scan_sound(a1, 0, q, Seq::<u8>::empty());
    lemma_scan_sound(a2, 0, q, Seq::<u8>::empty());
    assert(Seq::<u8>::empty() + q.take(k + 1) =~= q.take(k + 1));
    if a1.scan_outputs(0, q)[k].contains(PatId(i as u32)) {
        let x = choose|x: int|
            0 <= x < a1.scan_outputs(0, q)[k].len() && a1.scan_outputs(0, q)[k][x] == PatId(
                i as u32,
            );
        assert((a1.scan_outputs(0, q)[k][x].0 as int) == i);
        assert(is_suffix_of(a1.spec_patterns()[i], q.take(k + 1)));
    }
    if a2.scan_outputs(0, q)[k].contains(PatId(i as u32)) {
        let x = choose|x: int|
            0 <= x < a2.scan_outputs(0, q)[k].len() && a2.scan_outputs(0, q)[k][x] == PatId(
                i as u32,
            );
        assert((a2.scan_outputs(0, q)[k][x].0 as int) == i);
        assert(is_suffix_of(a2.spec_patterns()[i], q.take(k + 1)));
    }
}

/// Soundness of scanning: starting from a state whose label is a suffix of
/// the text already consumed, every identifier reported at offset `k` names
/// a stored pattern that ends exactly there.
pub(crate) proof fn lemma_scan_sound(a: AcAutomaton, n: int, s: Seq<u8>, t: Seq<u8>)
    requires
        a.wf(),
        0 <= n < a.nodes@.len(),
        is_suffix_of(a.paths@[n], t),
    ensures
        forall|k: int, x: int|
            0 <= k < s.len() && 0 <= x < a.scan_outputs(n, s)[k].len() ==> {
                let id = (#[trigger] a.scan_outputs(n, s)[k][x]).0 as int;
                &&& 0 <= id < a.spec_patterns().len()
                &&& a.spec_patterns()[id].len() >= 1
                &&& is_suffix_of(a.spec_patterns()[id], t + s.take(k + 1))
            },
    decreases s.len(),
{
    if s.len() > 0 {
        let b = s[0];
        let ns = a.spec_next_state(n, b);
        lemma_next_state_range(a, n, b);
        if a.in_alphabet(b) {
            let c = a.ord@[b as int].0 as int;
            lemma_byte_of_code(a.ord@, b);
            lemma_step_props(a, n, c);
            lemma_suffix_push(a.paths@[n], t, b);
            lemma_suffix_trans(a.paths@[ns], a.paths@[n].push(b), t.push(b));
        } else {
            lemma_empty_suffix(t.push(b));
        }
        assert(is_suffix_of(a.paths@[ns], t.push(b)));
        lemma_scan_sound(a, ns, s.skip(1), t.push(b));
        lemma_scan_outputs_len(a, ns, s.skip(1));
        assert forall|k: int, x: int|
            0 <= k < s.len() && 0 <= x < a.scan_outputs(n, s)[k].len() implies {
            let id = (#[trigger] a.scan_outputs(n, s)[k][x]).0 as int;
            &&& 0 <= id < a.spec_patterns().len()
            &&& a.spec_patterns()[id].len() >= 1
            &&& is_suffix_of(a.spec_patterns()[id], t + s.take(k + 1))
        } by {
            if k == 0 {
                assert(a.scan_outputs(n, s)[0] == a.spec_out_at(n, b));
                let id = a.scan_outputs(n, s)[0][x].0 as int;
                assert(a.spec_out_at(n, b)[x] == a.nodes@[ns].accepts@[x]);
                lemma_suffix_trans(a.spec_patterns()[id], a.paths@[ns], t.push(b));
                assert(t + s.take(1) =~= t.push(b));
            } else {
                assert(a.scan_outputs(n, s)[k] == a.scan_outputs(a.spec_next_state(n, s[0]), s.skip(1))[k - 1]);
                let id = a.scan_outputs(n, s)[k][x].0 as int;
                assert(t.push(b) + s.skip(1).take(k) =~= t + s.take(k + 1));
            }
        }
    }
}

/// Scanning a string that walks the trie follows the trie's walk.
pub(crate) proof fn lemma_walk_scan(a: AcAutomaton, n: int, s: Seq<u8>)
    requires
        a.wf(),
        0 <= n < a.nodes@.len(),
        walk(a.nodes@, a.ord@, n, s) is Some,
    ensures
        walk(a.nodes@, a.ord@, n, s) matches Some(m) && a.scan_state(n, s) == m && 0 <= m
            < a.nodes@.len(),
    decreases s.len(),
{
    if s.len() > 0 {
        let b = s[0];
        let c = a.ord@[b as int].0 as int;
        let m1 = a.nodes@[n].next@[c].0 as int;
        assert(a.nodes@[n].next@[c].0 != NODE_EMPTY);
        assert(0 <= c < a.max_ord.0 as int);
        assert(a.spec_step(n, c) == m1);
        assert(a.spec_next_state(n, b) == m1);
        lemma_walk_scan(a, m1, s.skip(1));
    }
}

/// The flat scan result is the concatenation of the per-position sets.
pub proof fn lemma_scan_flat_is_concat(a: AcAutomaton, n: int, s: Seq<u8>)
    ensures
        a.scan_flat(n, s) == a.scan_outputs(n, s).flatten(),
    decreases s.len(),
{
    if s.len() == 0 {
        assert(a.scan_outputs(n, s).flatten() =~= Seq::<PatId>::empty());
    } else {
        let ns = a.spec_next_state(n, s[0]);
        lemma_scan_flat_is_concat(a, ns, s.skip(1));
        let o = a.spec_out_at(n, s[0]);
        let rest = a.scan_outputs(ns, s.skip(1));
        assert((seq![o] + rest).first() == o);
        assert((seq![o] + rest).drop_first() =~= rest);
        assert((seq![o] + rest).flatten() == o + rest.flatten());
    }
}

/// Resumption law: a stored pattern standing right after an out-of-alphabet
/// byte is reported at its final byte, whatever came before the reset.
pub proof fn lemma_resumes_after_reset(a: AcAutomaton, s1: Seq<u8>, b: u8, i: int)
    requires
        a.wf(),
        !a.in_alphabet(b),
        0 <= i < a.spec_patterns().len(),
    ensures
        ({
            let t = s1 + seq![b] + a.spec_patterns()[i];
            a.scan_outputs(0, t).len() == t.len() && a.scan_outputs(0, t)[t.len() - 1].contains(
                PatId(i as u32),
            )
        }),
{
    let p = a.spec_patterns()[i];
    let t = s1 + seq![b] + p;
    lemma_out_of_alphabet_reset(a, s1, b, p);
    lemma_exact_text_reported(a, i);
    lemma_scan_outputs_len(a, 0, t);
    lemma_scan_outputs_len(a, 0, s1);
    assert(p.len() >= 1);
    assert(a.scan_outputs(0, t)[t.len() - 1] == a.scan_outputs(0, p)[p.len() - 1]);
}

/// Out-of-alphabet reset law: a byte outside the compressed alphabet is
/// reported with an empty set, never extends a partial match past itself,
/// and scanning resumes on the rest of the text as if started afresh.
pub proof fn lemma_out_of_alphabet_reset(a: AcAutomaton, s1: Seq<u8>, b: u8, s2: Seq<u8>)
    requires
        a.wf(),
        !a.in_alphabet(b),
    ensures
        a.scan_outputs(0, s1 + seq![b] + s2) == a.scan_outputs(0, s1) + seq![Seq::<PatId>::empty()]
            + a.scan_outputs(0, s2),
{
    lemma_scan_append(a, 0, s1, seq![b] + s2);
    assert(s1 + seq![b] + s2 =~= s1 + (seq![b] + s2));
    let m = a.scan_state(0, s1);
    assert((seq![b] + s2)[0] == b);
    assert((seq![b] + s2).skip(1) =~= s2);
    assert(a.spec_next_state(m, b) == 0);
    assert(a.spec_out_at(m, b) =~= Seq::<PatId>::empty());
    assert(a.scan_outputs(m, seq![b] + s2) =~= seq![Seq::<PatId>::empty()] + a.scan_outputs(
        0,
        s2,
    ));
    assert(a.scan_outputs(0, s1 + (seq![b] + s2)) =~= a.scan_outputs(0, s1) + seq![Seq::<
        PatId,
    >::empty()] + a.scan_outputs(0, s2));
}

/// No-false-positives law: every identifier reported at position `k` of a
/// scan names a stored pattern that ends exactly at `k`.
pub proof fn lemma_scan_no_false_positives(a: AcAutomaton, s: Seq<u8>, k: int, x: int)
    requires
        a.wf(),
        0 <= k < s.len(),
        0 <= x < a.scan_outputs(0, s)[k].len(),
    ensures
        ({
            let id = a.scan_outputs(0, s)[k][x].0 as int;
            &&& 0 <= id < a.spec_patterns().len()
            &&& a.spec_patterns()[id].len() >= 1
            &&& is_suffix_of(a.spec_patterns()[id], s.take(k + 1))
        }),
{
    lemma_empty_suffix(Seq::<u8>::empty());
    lemma_scan_sound(a, 0, s, Seq::<u8>::empty());
    assert(Seq::<u8>::empty() + s.take(k + 1) =~= s.take(k + 1));
}

/// Whole-text completeness law: scanning a text equal to a stored pattern
/// reports that pattern's identifier at the final byte.
pub proof fn lemma_exact_text_reported(a: AcAutomaton, i: int)
    requires
        a.wf(),
        0 <= i < a.spec_patterns().len(),
    ensures
        a.scan_outputs(0, a.spec_patterns()[i]).len() == a.spec_patterns()[i].len(),
        a.scan_outputs(0, a.spec_patterns()[i])[a.spec_patterns()[i].len() - 1].contains(
            PatId(i as u32),
        ),
{
    let p = a.spec_patterns()[i];
    lemma_scan_outputs_len(a, 0, p);
    assert(walk(a.nodes@, a.ord@, 0, p) matches Some(m) && 0 <= m < a.nodes@.len()
        && a.nodes@[m].accepts@.contains(PatId(i as u32)));
    let k = p.len() - 1;
    lemma_scan_outputs_index(a, 0, p, k);
    lemma_walk_append(a.nodes@, a.ord@, 0, p.take(k), seq![p[k]]);
    assert(p =~= p.take(k) + seq![p[k]]);
    assert(walk(a.nodes@, a.ord@, 0, p.take(k)) is Some) by {
        if walk(a.nodes@, a.ord@, 0, p.take(k)) is None {
            assert(walk(a.nodes@, a.ord@, 0, p) is None);
        }
    }
    lemma_walk_scan(a, 0, p.take(k));
    let m0 = a.scan_state(0, p.take(k));
    let b = p[k];
    assert(seq![b].skip(1) =~= Seq::<u8>::empty());
    assert(seq![b][0] == b);
    assert(byte_valid(b) && a.ord@[b as int].0 != ORD_EMPTY) by {
        assert(a.spec_patterns()[i][k] == b);
    }
    let c = a.ord@[b as int].0 as int;
    assert(a.nodes@[m0].next@[c].0 != NODE_EMPTY);
    assert(0 <= c < a.max_ord.0 as int);
    assert(a.spec_next_state(m0, b) == a.nodes@[m0].next@[c].0 as int);
    assert(walk(a.nodes@, a.ord@, a.nodes@[m0].next@[c].0 as int, seq![b].skip(1)) == Some(
        a.nodes@[m0].next@[c].0 as int,
    ));
    assert(walk(a.nodes@, a.ord@, m0, seq![b]) == Some(a.nodes@[m0].next@[c].0 as int));
    assert(a.spec_out_at(m0, b) == a.nodes@[a.spec_next_state(m0, b)].accepts@);
}


/// Complete the root's transition row and set every failure link in
/// breadth-first order, merging each newly linked node's accept set with
/// its failure target's.
#[verifier::loop_isolation(false)]
#[verifier::rlimit(100)]
fn add_failure_links(
    nodes: &mut Vec<Node>,
    ord: &Vec<ByteOrd>,
    max_ord: ByteOrd,
    Ghost(paths): Ghost<Seq<Seq<u8>>>,
    Ghost(keysv): Ghost<Seq<Seq<u8>>>,
)
    requires
        ord_wf(ord@, max_ord.0 as int),
        nodes_basic(old(nodes)@, paths),
        edges_wf(old(nodes)@, paths, ord@, max_ord.0 as int),
        no_root_edges(old(nodes)@),
        unique_parent(old(nodes)@),
        parent_exists(old(nodes)@),
        all_fail_empty(old(nodes)@),
        accepts_sound(old(nodes)@, paths, keysv),
        ac_inserted(old(nodes)@, ord@, keysv, keysv.len() as int),
        paths_inj(paths, old(nodes)@.len() as int),
        paths_alpha(paths, ord@, old(nodes)@.len() as int),
        pats_are_states(paths, old(nodes)@.len() as int, keysv, keysv.len() as int),
        accepts_exact(old(nodes)@, paths, keysv, keysv.len() as int),
        forall|n: int|
            0 <= n < old(nodes)@.len() ==> #[trigger] row_own(
                paths,
                keysv,
                n,
                old(nodes)@[n].accepts@,
            ),
        forall|i: int| 0 <= i < keysv.len() ==> (#[trigger] keysv[i]).len() >= 1,
        old(nodes)@.len() < NODE_EMPTY as int,
    ensures
        final(nodes)@.len() == old(nodes)@.len(),
        nodes_basic(final(nodes)@, paths),
        edges_wf(final(nodes)@, paths, ord@, max_ord.0 as int),
        root_total(final(nodes)@, max_ord.0 as int),
        fail_wf(final(nodes)@, paths),
        accepts_sound(final(nodes)@, paths, keysv),
        ac_inserted(final(nodes)@, ord@, keysv, keysv.len() as int),
        unique_parent(final(nodes)@),
        parent_exists(final(nodes)@),
        fail_longest(final(nodes)@, paths),
        accepts_complete(final(nodes)@, paths, keysv),
        accepts_ordered(final(nodes)@, keysv),
{
    let ghost mo = max_ord.0 as int;
    let mut que: Vec<NodeId> = Vec::new();
    let ghost mut enq: Set<int> = Set::empty();
    let mo_usize = max_ord.idx();
    let mut c: usize = 0;
    while c < mo_usize
        invariant
            c <= mo_usize,
            nodes@.len() == old(nodes)@.len(),
            nodes@.len() < NODE_EMPTY as int,
            nodes_basic(nodes@, paths),
            edges_wf(nodes@, paths, ord@, mo),
            unique_parent(nodes@),
            parent_exists(nodes@),
            accepts_sound(nodes@, paths, keysv),
            ac_inserted(nodes@, ord@, keysv, keysv.len() as int),
            accepts_exact(nodes@, paths, keysv, keysv.len() as int),
            forall|n: int|
                0 <= n < nodes@.len() ==> #[trigger] row_own(paths, keysv, n, nodes@[n].accepts@),
            forall|cc: int|
                0 <= cc < c as int ==> (#[trigger] nodes@[0].next@[cc]).0 != NODE_EMPTY,
            forall|cc: int|
                c as int <= cc < CHAR_MAX as int && (#[trigger] nodes@[0].next@[cc]).0
                    != NODE_EMPTY ==> nodes@[0].next@[cc].0 != 0,
            forall|p: int, cc: int|
                1 <= p < nodes@.len() && 0 <= cc < CHAR_MAX as int && (#[trigger]
            nodes@[p].next@[cc]).0 != NODE_EMPTY ==> nodes@[p].next@[cc].0 != 0,
            enq.finite(),
            enq.len() == que@.len(),
            enq.subset_of(set_int_range(1, nodes@.len() as int)),
            forall|n: int|
                #[trigger] enq.contains(n) <==> exists|k: int|
                    0 <= k < que@.len() && (#[trigger] que@[k]).0 as int == n,
            forall|k1: int, k2: int|
                0 <= k1 < k2 < que@.len() ==> (#[trigger] que@[k1]).0 != (
                #[trigger] que@[k2]).0,
            forall|k: int|
                0 <= k < que@.len() ==> {
                    let n = (#[trigger] que@[k]).0 as int;
                    &&& queued_ok(nodes@, paths, keysv, n)
                    &&& (nodes@[n].fail.0 as int == 0 || enq.contains(nodes@[n].fail.0 as int))
                    &&& paths[n].len() == 1
                    &&& exists|cc: int|
                        0 <= cc < c as int && (#[trigger] nodes@[0].next@[cc]).0 as int == n
                },
            forall|n: int|
                0 <= n < nodes@.len() && !enq.contains(n) ==> (#[trigger] nodes@[n]).fail.0
                    == NODE_EMPTY,
            forall|cc: int|
                0 <= cc < c as int && (#[trigger] nodes@[0].next@[cc]).0 as int != 0
                    ==> enq.contains(nodes@[0].next@[cc].0 as int),
        decreases mo_usize - c,
    {
        let cv = ByteOrd(c as u8);
        let child = nodes[0].next(cv);
        if child.is_empty() {
            let ghost nodes0 = nodes@;
            nodes[0].next[c] = NodeId(0);
            proof {
                let nodes1 = nodes@;
                assert(forall|p: int| 1 <= p < nodes1.len() ==> nodes1[p] == nodes0[p]);
                assert(nodes1[0].next@ == nodes0[0].next@.update(c as int, NodeId(0)));
                assert(nodes1[0].fail == nodes0[0].fail);
                assert(nodes1[0].accepts == nodes0[0].accepts);
                assert(forall|p: int, c2: int|
                    0 <= p < nodes1.len() && 0 <= c2 < CHAR_MAX as int && (#[trigger]
                nodes1[p].next@[c2]).0 != NODE_EMPTY && !(p == 0 && c2 == c as int) ==> nodes1[p].next@[c2]
                    == nodes0[p].next@[c2]);
                assert(code_assigned(ord@, c as int));
                assert forall|p: int, c2: int|
                    0 <= p < nodes1.len() && 0 <= c2 < CHAR_MAX as int && (#[trigger]
                nodes1[p].next@[c2]).0 != NODE_EMPTY implies {
                    let m = nodes1[p].next@[c2].0 as int;
                    &&& c2 < mo
                    &&& code_assigned(ord@, c2)
                    &&& 0 <= m < nodes1.len()
                    &&& (m == 0 ==> p == 0)
                    &&& (m != 0 ==> paths[m] == paths[p].push(byte_of(ord@, c2)))
                } by {
                    if !(p == 0 && c2 == c as int) {
                        assert(nodes1[p].next@[c2] == nodes0[p].next@[c2]);
                    }
                }
                assert(edges_wf(nodes1, paths, ord@, mo));
                assert forall|n1: int, c1: int, n2: int, c2: int|
                    0 <= n1 < nodes1.len() && 0 <= c1 < CHAR_MAX as int && 0 <= n2
                    < nodes1.len() && 0 <= c2 < CHAR_MAX as int && (#[trigger]
                nodes1[n1].next@[c1]).0 != NODE_EMPTY && nodes1[n1].next@[c1].0 == (#[trigger]
                nodes1[n2].next@[c2]).0 && nodes1[n1].next@[c1].0 != 0 implies n1 == n2 && c1
                    == c2 by {
                    assert(nodes1[n1].next@[c1] == nodes0[n1].next@[c1]);
                    assert(nodes1[n2].next@[c2] == nodes0[n2].next@[c2]);
                }
                assert(unique_parent(nodes1));
                assert forall|m: int| 1 <= m < nodes1.len() implies #[trigger] has_parent(
                    nodes1,
                    m,
                ) by {
                    assert(has_parent(nodes0, m));
                    let (pp, cc) = choose|pp: int, cc: int|
                        0 <= pp < nodes0.len() && 0 <= cc < CHAR_MAX as int && (#[trigger]
                    nodes0[pp].next@[cc]).0 != NODE_EMPTY && (nodes0[pp].next@[cc].0 as int)
                        == m;
                    assert(nodes1[pp].next@[cc] == nodes0[pp].next@[cc]);
                }
                assert(parent_exists(nodes1));
                assert forall|n: int, x: int|
                    0 <= n < nodes1.len() && 0 <= x < nodes1[n].accepts@.len() implies {
                    let id = (#[trigger] nodes1[n].accepts@[x]).0 as int;
                    &&& 0 <= id < keysv.len()
                    &&& keysv[id].len() >= 1
                    &&& is_suffix_of(keysv[id], paths[n])
                } by {
                    assert(nodes1[n].accepts@ == nodes0[n].accepts@);
                }
                assert(accepts_sound(nodes1, paths, keysv));
                assert(forall|p: int, c2: int|
                    0 <= p < nodes0.len() && 0 <= c2 < CHAR_MAX as int && (#[trigger]
                nodes0[p].next@[c2]).0 != NODE_EMPTY ==> nodes1[p].next@[c2]
                    == nodes0[p].next@[c2]);
                assert forall|ii: int| 0 <= ii < keysv.len() as int implies ((#[trigger]
                walk(nodes1, ord@, 0, keysv[ii])) matches Some(n) && 0 <= n < nodes1.len()
                    && nodes1[n].accepts@.contains(PatId(ii as u32))) by {
                    lemma_walk_preserved(nodes0, nodes1, ord@, 0, keysv[ii]);
                    match walk(nodes0, ord@, 0, keysv[ii]) {
                        Some(n) => {
                            assert(nodes1[n].accepts@ == nodes0[n].accepts@);
                        },
                        None => {},
                    }
                }
                assert(ac_inserted(nodes1, ord@, keysv, keysv.len() as int));
                assert forall|n: int, i2: int|
                    #![trigger paths[n], keysv[i2]]
                    0 <= n < nodes1.len() && 0 <= i2 < keysv.len() && paths[n] == keysv[i2]
                    implies nodes1[n].accepts@.contains(PatId(i2 as u32)) by {
                    assert(nodes1[n].accepts@ == nodes0[n].accepts@);
                }
                assert(accepts_exact(nodes1, paths, keysv, keysv.len() as int));
                assert forall|n: int| 0 <= n < nodes1.len() implies #[trigger] row_own(
                    paths,
                    keysv,
                    n,
                    nodes1[n].accepts@,
                ) by {
                    assert(row_own(paths, keysv, n, nodes0[n].accepts@));
                    assert(nodes1[n].accepts@ == nodes0[n].accepts@);
                }
            }
        } else {
            let ghost nodes0 = nodes@;
            let ghost qold1 = que@;
            nodes[child.idx()].fail = NodeId(0);
            que.push(child);
            proof {
                let nodes1 = nodes@;
                let ch = child.0 as int;
                assert(nodes0[0].next@[c as int].0 != 0);
                assert(1 <= ch < nodes1.len());
                assert(forall|p: int| 0 <= p < nodes1.len() && p != ch ==> nodes1[p] == nodes0[p]);
                assert(nodes1[ch].next@ == nodes0[ch].next@);
                assert(nodes1[ch].accepts@ == nodes0[ch].accepts@);
                assert(nodes1[ch].fail == NodeId(0));
                assert(forall|p: int|
                    0 <= p < nodes1.len() ==> (#[trigger] nodes1[p]).next@
                        == nodes0[p].next@);
                assert(forall|p: int, c2: int|
                    0 <= p < nodes0.len() && 0 <= c2 < CHAR_MAX as int && (#[trigger]
                nodes0[p].next@[c2]).0 != NODE_EMPTY ==> nodes1[p].next@[c2]
                    == nodes0[p].next@[c2]);
                assert(paths[ch] == paths[0].push(byte_of(ord@, c as int)));
                assert(paths[ch].len() == 1);
                assert forall|m: int| 1 <= m < nodes1.len() implies #[trigger] has_parent(
                    nodes1,
                    m,
                ) by {
                    assert(has_parent(nodes0, m));
                    let (pp, cc) = choose|pp: int, cc: int|
                        0 <= pp < nodes0.len() && 0 <= cc < CHAR_MAX as int && (#[trigger]
                    nodes0[pp].next@[cc]).0 != NODE_EMPTY && (nodes0[pp].next@[cc].0 as int)
                        == m;
                    assert(nodes1[pp].next@[cc] == nodes0[pp].next@[cc]);
                }
                assert(parent_exists(nodes1));
                assert forall|n: int, x: int|
                    0 <= n < nodes1.len() && 0 <= x < nodes1[n].accepts@.len() implies {
                    let id = (#[trigger] nodes1[n].accepts@[x]).0 as int;
                    &&& 0 <= id < keysv.len()
                    &&& keysv[id].len() >= 1
                    &&& is_suffix_of(keysv[id], paths[n])
                } by {
                    assert(nodes1[n].accepts@ == nodes0[n].accepts@);
                }
                assert(accepts_sound(nodes1, paths, keysv));
                if enq.contains(ch) {
                    let k = choose|k: int|
                        0 <= k < que@.len() - 1 && (#[trigger] que@[k]).0 as int == ch;
                    let cc = choose|cc: int|
                        0 <= cc < c as int && (#[trigger] nodes0[0].next@[cc]).0 as int == ch;
                    assert(nodes0[0].next@[cc].0 == nodes0[0].next@[c as int].0);
                    assert(false);
                }
                assert forall|n: int, i2: int|
                    #![trigger paths[n], keysv[i2]]
                    0 <= n < nodes1.len() && 0 <= i2 < keysv.len() && paths[n] == keysv[i2]
                    implies nodes1[n].accepts@.contains(PatId(i2 as u32)) by {
                    assert(nodes1[n].accepts@ == nodes0[n].accepts@);
                }
                assert(accepts_exact(nodes1, paths, keysv, keysv.len() as int));
                assert forall|n: int| 0 <= n < nodes1.len() implies #[trigger] row_own(
                    paths,
                    keysv,
                    n,
                    nodes1[n].accepts@,
                ) by {
                    assert(row_own(paths, keysv, n, nodes0[n].accepts@));
                    assert(nodes1[n].accepts@ == nodes0[n].accepts@);
                }
                lemma_row_own_ordered(paths, keysv, ch, nodes1[ch].accepts@);
                assert forall|m: int|
                    0 <= m < nodes1.len() && #[trigger] is_suffix_of(paths[m], paths[ch])
                        && paths[m].len() < paths[ch].len() implies paths[m].len() <= paths[(
                    nodes1[ch].fail.0 as int)].len() by {
                    assert(paths[m].len() == 0);
                }
                assert(longest_suffix_at(paths, nodes1.len() as int, ch, nodes1[ch].fail.0 as int));
                assert forall|i2: int|
                    0 <= i2 < keysv.len() && #[trigger] is_suffix_of(keysv[i2], paths[ch]) implies
                    nodes1[ch].accepts@.contains(PatId(i2 as u32)) by {
                    assert(keysv[i2].len() >= 1);
                    assert(keysv[i2].len() == 1);
                    assert(keysv[i2] == paths[ch].subrange(0, 1));
                    assert(paths[ch].subrange(0, 1) =~= paths[ch]);
                    assert(keysv[i2] == paths[ch]);
                }
                assert(row_complete(paths, keysv, ch, nodes1[ch].accepts@));
                enq = enq.insert(ch);
                assert forall|n: int| #[trigger] enq.contains(n) implies exists|k: int|
                    0 <= k < que@.len() && (#[trigger] que@[k]).0 as int == n by {
                    if n == ch {
                        assert(que@[que@.len() - 1].0 as int == n);
                    } else {
                        let k = choose|k: int|
                            0 <= k < qold1.len() && (#[trigger] qold1[k]).0 as int == n;
                        assert(que@[k].0 as int == n);
                    }
                }
                assert forall|n: int| (exists|k: int|
                    0 <= k < que@.len() && (#[trigger] que@[k]).0 as int == n) implies
                    #[trigger] enq.contains(n) by {
                    let k = choose|k: int|
                        0 <= k < que@.len() && (#[trigger] que@[k]).0 as int == n;
                    if k < que@.len() - 1 {
                        assert(qold1[k].0 as int == n);
                    }
                }
                lemma_empty_suffix(paths[ch]);
                assert(fail_wf_at(nodes1, paths, ch));
                assert forall|ii: int| 0 <= ii < keysv.len() as int implies ((#[trigger]
                walk(nodes1, ord@, 0, keysv[ii])) matches Some(n) && 0 <= n < nodes1.len()
                    && nodes1[n].accepts@.contains(PatId(ii as u32))) by {
                    lemma_walk_preserved(nodes0, nodes1, ord@, 0, keysv[ii]);
                    match walk(nodes0, ord@, 0, keysv[ii]) {
                        Some(n) => {
                            assert(nodes1[n].accepts@ == nodes0[n].accepts@);
                        },
                        None => {},
                    }
                }
                assert(ac_inserted(nodes1, ord@, keysv, keysv.len() as int));
                assert forall|k: int| 0 <= k < que@.len() implies {
                    let n = (#[trigger] que@[k]).0 as int;
                    &&& queued_ok(nodes1, paths, keysv, n)
                    &&& (nodes1[n].fail.0 as int == 0 || enq.contains(nodes1[n].fail.0 as int))
                    &&& paths[n].len() == 1
                    &&& exists|cc: int|
                        0 <= cc < c as int + 1 && (#[trigger] nodes1[0].next@[cc]).0 as int
                            == n
                } by {
                    let n = que@[k].0 as int;
                    if k < que@.len() - 1 {
                        assert(n != ch);
                        assert(nodes1[n] == nodes0[n]);
                        assert(queued_ok(nodes0, paths, keysv, n));
                        assert(fail_wf_at(nodes1, paths, n));
                        assert(queued_ok(nodes1, paths, keysv, n));
                        let cc = choose|cc: int|
                            0 <= cc < c as int && (#[trigger] nodes0[0].next@[cc]).0 as int
                                == n;
                        assert(nodes1[0].next@[cc].0 as int == n);
                    } else {
                        assert(n == ch);
                        assert(queued_ok(nodes1, paths, keysv, ch));
                        assert(nodes1[0].next@[c as int].0 as int == ch);
                    }
                }
            }
        }
        c += 1;
    }
    proof {
        assert forall|k: int| 0 <= k < que@.len() implies #[trigger] parented(
            nodes@,
            que@,
            0,
            0,
            0,
            k,
        ) by {
            let n = que@[k].0 as int;
            let cc = choose|cc: int|
                0 <= cc < mo_usize as int && (#[trigger] nodes@[0].next@[cc]).0 as int == n;
            assert(nodes@[0].next@[cc].0 != NODE_EMPTY);
            assert(0 <= cc < CHAR_MAX as int);
            assert(nodes@[0].next@[cc].0 as int == que@[k].0 as int);
        }
    }
    let enqf = link_bfs(nodes, &mut que, ord, max_ord, Ghost(paths), Ghost(keysv), Ghost(enq));
    proof {
        lemma_link_finalize(nodes@, paths, ord@, mo, que@, enqf@, keysv);
    }
}

/// Breadth-first failure-link pass over a trie whose root row is already
/// total: pops each queued node, enqueues its children, resolves their
/// failure links through the parent's chain, and merges each child's
/// accept set with its failure target's.
#[verifier::loop_isolation(false)]
#[verifier::rlimit(100)]
fn link_bfs(
    nodes: &mut Vec<Node>,
    que: &mut Vec<NodeId>,
    ord: &Vec<ByteOrd>,
    max_ord: ByteOrd,
    Ghost(paths): Ghost<Seq<Seq<u8>>>,
    Ghost(keysv): Ghost<Seq<Seq<u8>>>,
    Ghost(enq0): Ghost<Set<int>>,
) -> (enqf: Ghost<Set<int>>)
    requires
        ord_wf(ord@, max_ord.0 as int),
        nodes_basic(old(nodes)@, paths),
        edges_wf(old(nodes)@, paths, ord@, max_ord.0 as int),
        unique_parent(old(nodes)@),
        parent_exists(old(nodes)@),
        root_total(old(nodes)@, max_ord.0 as int),
        accepts_sound(old(nodes)@, paths, keysv),
        ac_inserted(old(nodes)@, ord@, keysv, keysv.len() as int),
        enq0.finite(),
        enq0.len() == old(que)@.len(),
        enq0.subset_of(set_int_range(1, old(nodes)@.len() as int)),
        forall|n: int|
            #[trigger] enq0.contains(n) <==> exists|k: int|
                0 <= k < old(que)@.len() && (#[trigger] old(que)@[k]).0 as int == n,
        forall|k1: int, k2: int|
            0 <= k1 < k2 < old(que)@.len() ==> (#[trigger] old(que)@[k1]).0 != (#[trigger] old(
                que,
            )@[k2]).0,
        forall|k: int|
            0 <= k < old(que)@.len() ==> {
                let n = (#[trigger] old(que)@[k]).0 as int;
                &&& queued_ok(old(nodes)@, paths, keysv, n)
                &&& (old(nodes)@[n].fail.0 as int == 0 || enq0.contains(
                    old(nodes)@[n].fail.0 as int,
                ))
                &&& paths[n].len() == 1
            },
        forall|k: int|
            0 <= k < old(que)@.len() ==> #[trigger] parented(old(nodes)@, old(que)@, 0, 0, 0, k),
        forall|cc: int|
            0 <= cc < CHAR_MAX as int && (#[trigger] old(nodes)@[0].next@[cc]).0 != NODE_EMPTY
                && old(nodes)@[0].next@[cc].0 != 0 ==> enq0.contains(
                old(nodes)@[0].next@[cc].0 as int,
            ),
        paths_inj(paths, old(nodes)@.len() as int),
        paths_alpha(paths, ord@, old(nodes)@.len() as int),
        pats_are_states(paths, old(nodes)@.len() as int, keysv, keysv.len() as int),
        accepts_exact(old(nodes)@, paths, keysv, keysv.len() as int),
        forall|n: int|
            0 <= n < old(nodes)@.len() && !enq0.contains(n) ==> #[trigger] row_own(
                paths,
                keysv,
                n,
                old(nodes)@[n].accepts@,
            ),
        forall|i: int| 0 <= i < keysv.len() ==> (#[trigger] keysv[i]).len() >= 1,
    ensures
        final(nodes)@.len() == old(nodes)@.len(),
        nodes_basic(final(nodes)@, paths),
        edges_wf(final(nodes)@, paths, ord@, max_ord.0 as int),
        root_total(final(nodes)@, max_ord.0 as int),
        accepts_sound(final(nodes)@, paths, keysv),
        ac_inserted(final(nodes)@, ord@, keysv, keysv.len() as int),
        unique_parent(final(nodes)@),
        parent_exists(final(nodes)@),
        forall|n: int|
            #[trigger] enqf@.contains(n) <==> exists|k: int|
                0 <= k < final(que)@.len() && (#[trigger] final(que)@[k]).0 as int == n,
        forall|k: int|
            0 <= k < final(que)@.len() ==> #[trigger] queued_ok(
                final(nodes)@,
                paths,
                keysv,
                (final(que)@[k].0 as int),
            ),
        forall|k: int, cc: int|
            0 <= k < final(que)@.len() && 0 <= cc < CHAR_MAX as int && (#[trigger] final(nodes)@[(
            final(que)@[k].0 as int)].next@[cc]).0 != NODE_EMPTY ==> enqf@.contains(
                final(nodes)@[(final(que)@[k].0 as int)].next@[cc].0 as int,
            ),
        forall|cc: int|
            0 <= cc < CHAR_MAX as int && (#[trigger] final(nodes)@[0].next@[cc]).0 != NODE_EMPTY
                && final(nodes)@[0].next@[cc].0 != 0 ==> enqf@.contains(
                final(nodes)@[0].next@[cc].0 as int,
            ),
        forall|n: int|
            0 <= n < final(nodes)@.len() && !enqf@.contains(n) ==> #[trigger] row_own(
                paths,
                keysv,
                n,
                final(nodes)@[n].accepts@,
            ),
{
    let ghost mo = max_ord.0 as int;
    let mo_usize = max_ord.idx();
    let ghost mut enq: Set<int> = enq0;
    let mut qi: usize = 0;
    proof {
        assert forall|k: int| 0 <= k < que@.len() implies #[trigger] parented(
            nodes@,
            que@,
            qi as int,
            0,
            0,
            k,
        ) by {
            assert(parented(nodes@, que@, 0, 0, 0, k));
        }
        assert forall|k1: int, k2: int|
            0 <= k1 <= k2 < que@.len() implies paths[(#[trigger] que@[k1]).0 as int].len()
            <= paths[(#[trigger] que@[k2]).0 as int].len() by {
            assert(paths[(que@[k1].0 as int)].len() == 1);
            assert(paths[(que@[k2].0 as int)].len() == 1);
        }
        assert(depth_sorted(paths, que@));
        assert(frontier_ok(paths, que@, 0));
    }
    while qi < que.len()
        invariant
            qi <= que@.len(),
            nodes@.len() == old(nodes)@.len(),
            nodes_basic(nodes@, paths),
            edges_wf(nodes@, paths, ord@, mo),
            unique_parent(nodes@),
            parent_exists(nodes@),
            root_total(nodes@, mo),
            accepts_sound(nodes@, paths, keysv),
            ac_inserted(nodes@, ord@, keysv, keysv.len() as int),
            accepts_exact(nodes@, paths, keysv, keysv.len() as int),
            forall|n: int|
                0 <= n < nodes@.len() && !enq.contains(n) ==> #[trigger] row_own(
                    paths,
                    keysv,
                    n,
                    nodes@[n].accepts@,
                ),
            enq.finite(),
            enq.len() == que@.len(),
            enq.subset_of(set_int_range(1, nodes@.len() as int)),
            forall|n: int|
                #[trigger] enq.contains(n) <==> exists|k: int|
                    0 <= k < que@.len() && (#[trigger] que@[k]).0 as int == n,
            forall|k1: int, k2: int|
                0 <= k1 < k2 < que@.len() ==> (#[trigger] que@[k1]).0 != (
                #[trigger] que@[k2]).0,
            forall|k: int|
                0 <= k < que@.len() ==> {
                    let n = (#[trigger] que@[k]).0 as int;
                    &&& queued_ok(nodes@, paths, keysv, n)
                    &&& (nodes@[n].fail.0 as int == 0 || enq.contains(nodes@[n].fail.0 as int))
                },
            forall|k: int|
                0 <= k < que@.len() ==> #[trigger] parented(nodes@, que@, qi as int, 0, 0, k),
            forall|k: int, cc: int|
                0 <= k < qi as int && 0 <= cc < CHAR_MAX as int && (#[trigger] nodes@[(
                que@[k].0 as int)].next@[cc]).0 != NODE_EMPTY ==> enq.contains(
                    nodes@[(que@[k].0 as int)].next@[cc].0 as int,
                ),
            forall|cc: int|
                0 <= cc < CHAR_MAX as int && (#[trigger] nodes@[0].next@[cc]).0 != NODE_EMPTY
                    && nodes@[0].next@[cc].0 != 0 ==> enq.contains(
                    nodes@[0].next@[cc].0 as int,
                ),
            depth_sorted(paths, que@),
            qi as int == 0 ==> forall|k: int|
                0 <= k < que@.len() ==> paths[(#[trigger] que@[k]).0 as int].len() == 1,
            frontier_ok(paths, que@, qi as int),
        decreases nodes@.len() - qi,
    {
        proof {
            vstd::set_lib::lemma_int_range(1, nodes@.len() as int);
            vstd::set_lib::lemma_len_subset(enq, set_int_range(1, nodes@.len() as int));
        }
        let cur_id = que[qi];
        qi += 1;
        let ghost curi = cur_id.0 as int;
        proof {
            assert forall|k: int| 0 <= k < que@.len() implies #[trigger] parented(
                nodes@,
                que@,
                qi as int - 1,
                curi,
                0,
                k,
            ) by {
                lemma_parented_weaken(
                    nodes@,
                    que@,
                    qi as int - 1,
                    0,
                    0,
                    qi as int - 1,
                    curi,
                    0,
                    k,
                );
            }
        }
        let mut c2: usize = 0;
        while c2 < mo_usize
            invariant
                c2 <= mo_usize,
                nodes@.len() == old(nodes)@.len(),
                qi as int >= 1,
                qi <= que@.len(),
                curi == (que@[qi as int - 1].0 as int),
                1 <= curi < nodes@.len(),
                nodes_basic(nodes@, paths),
                edges_wf(nodes@, paths, ord@, mo),
                unique_parent(nodes@),
                parent_exists(nodes@),
                root_total(nodes@, mo),
                accepts_sound(nodes@, paths, keysv),
                ac_inserted(nodes@, ord@, keysv, keysv.len() as int),
                accepts_exact(nodes@, paths, keysv, keysv.len() as int),
                forall|n: int|
                    0 <= n < nodes@.len() && !enq.contains(n) ==> #[trigger] row_own(
                        paths,
                        keysv,
                        n,
                        nodes@[n].accepts@,
                    ),
                enq.finite(),
                enq.len() == que@.len(),
                enq.subset_of(set_int_range(1, nodes@.len() as int)),
                forall|n: int|
                    #[trigger] enq.contains(n) <==> exists|k: int|
                        0 <= k < que@.len() && (#[trigger] que@[k]).0 as int == n,
                forall|k1: int, k2: int|
                    0 <= k1 < k2 < que@.len() ==> (#[trigger] que@[k1]).0 != (
                    #[trigger] que@[k2]).0,
                forall|k: int|
                    0 <= k < que@.len() ==> {
                        let n = (#[trigger] que@[k]).0 as int;
                        &&& queued_ok(nodes@, paths, keysv, n)
                        &&& (nodes@[n].fail.0 as int == 0 || enq.contains(
                            nodes@[n].fail.0 as int,
                        ))
                    },
                forall|k: int|
                    0 <= k < que@.len() ==> #[trigger] parented(
                        nodes@,
                        que@,
                        qi as int - 1,
                        curi,
                        c2 as int,
                        k,
                    ),
                forall|k: int, cc: int|
                    0 <= k < qi as int - 1 && 0 <= cc < CHAR_MAX as int && (#[trigger] nodes@[(
                    que@[k].0 as int)].next@[cc]).0 != NODE_EMPTY ==> enq.contains(
                        nodes@[(que@[k].0 as int)].next@[cc].0 as int,
                    ),
                forall|cc: int|
                    0 <= cc < c2 as int && (#[trigger] nodes@[curi].next@[cc]).0 != NODE_EMPTY
                        ==> enq.contains(nodes@[curi].next@[cc].0 as int),
                forall|cc: int|
                    0 <= cc < CHAR_MAX as int && (#[trigger] nodes@[0].next@[cc]).0
                        != NODE_EMPTY && nodes@[0].next@[cc].0 != 0 ==> enq.contains(
                        nodes@[0].next@[cc].0 as int,
                    ),
                depth_sorted(paths, que@),
                frontier_ok(paths, que@, qi as int),
            decreases mo_usize - c2,
        {
            let cv = ByteOrd(c2 as u8);
            let nxt = nodes[cur_id.idx()].next(cv);
            if !nxt.is_empty() {
                proof {
                    assert(nodes@[curi].next@[c2 as int].0 != NODE_EMPTY);
                    assert(nxt.0 as int != 0);
                    assert(1 <= nxt.0 as int && (nxt.0 as int) < nodes@.len());
                    assert(paths[nxt.0 as int] == paths[curi].push(byte_of(ord@, c2 as int)));
                    assert(queued_ok(nodes@, paths, keysv, curi));
                    assert(fail_wf_at(nodes@, paths, curi));
                }
                proof {
                    assert(queued_ok(nodes@, paths, keysv, curi));
                    assert(longest_suffix_at(
                        paths,
                        nodes@.len() as int,
                        curi,
                        nodes@[curi].fail.0 as int,
                    ));
                }
                let mut cfail: usize = nodes[cur_id.idx()].fail.idx();
                while nodes[cfail].next(cv).is_empty()
                    invariant
                        (cfail as int) < nodes@.len(),
                        cfail as int == 0 || enq.contains(cfail as int),
                        is_suffix_of(paths[cfail as int], paths[curi]),
                        paths[cfail as int].len() < paths[curi].len(),
                        forall|m: int|
                            0 <= m < nodes@.len() && #[trigger] is_suffix_of(
                                paths[m],
                                paths[curi],
                            ) && paths[m].len() < paths[curi].len() && nodes@[m].next@[c2 as int].0
                                != NODE_EMPTY ==> paths[m].len() <= paths[cfail as int].len(),
                    decreases paths[cfail as int].len(),
                {
                    proof {
                        assert(cfail as int != 0);
                        assert(enq.contains(cfail as int));
                        let k = choose|k: int|
                            0 <= k < que@.len() && (#[trigger] que@[k]).0 as int
                                == cfail as int;
                        assert(queued_ok(nodes@, paths, keysv, cfail as int));
                        assert(fail_wf_at(nodes@, paths, cfail as int));
                        assert(longest_suffix_at(
                            paths,
                            nodes@.len() as int,
                            cfail as int,
                            nodes@[cfail as int].fail.0 as int,
                        ));
                        lemma_suffix_trans(
                            paths[nodes@[cfail as int].fail.0 as int],
                            paths[cfail as int],
                            paths[curi],
                        );
                        let ghost fc = nodes@[cfail as int].fail.0 as int;
                        assert forall|m: int|
                            0 <= m < nodes@.len() && #[trigger] is_suffix_of(
                                paths[m],
                                paths[curi],
                            ) && paths[m].len() < paths[curi].len() && nodes@[m].next@[c2 as int].0
                                != NODE_EMPTY implies paths[m].len() <= paths[fc].len() by {
                            assert(paths[m].len() <= paths[cfail as int].len());
                            if paths[m].len() == paths[cfail as int].len() {
                                lemma_suffix_compare(paths[m], paths[cfail as int], paths[curi]);
                                assert(paths[m] == paths[cfail as int].subrange(
                                    0,
                                    paths[cfail as int].len() as int,
                                ));
                                assert(paths[cfail as int].subrange(
                                    0,
                                    paths[cfail as int].len() as int,
                                ) =~= paths[cfail as int]);
                                assert(m == cfail as int);
                                assert(false);
                            } else {
                                lemma_suffix_compare(paths[m], paths[cfail as int], paths[curi]);
                            }
                        }
                    }
                    cfail = nodes[cfail].fail.idx();
                }
                let ft = nodes[cfail].next(cv);
                proof {
                    assert(nodes@[cfail as int].next@[c2 as int].0 != NODE_EMPTY);
                    let fti = ft.0 as int;
                    assert(0 <= fti < nodes@.len());
                    if fti == 0 {
                        assert(cfail as int == 0);
                        lemma_empty_suffix(paths[nxt.0 as int]);
                        lemma_empty_suffix(paths[curi].push(byte_of(ord@, c2 as int)));
                    } else {
                        assert(paths[fti] == paths[cfail as int].push(
                            byte_of(ord@, c2 as int),
                        ));
                        lemma_suffix_push(
                            paths[cfail as int],
                            paths[curi],
                            byte_of(ord@, c2 as int),
                        );
                    }
                    assert(is_suffix_of(paths[fti], paths[nxt.0 as int]));
                    assert(paths[fti].len() < paths[nxt.0 as int].len());
                    if fti != 0 {
                        if cfail as int == 0 {
                            assert(enq.contains(fti));
                        } else {
                            let k = choose|k: int|
                                0 <= k < que@.len() && (#[trigger] que@[k]).0 as int
                                    == cfail as int;
                            assert(depth_sorted(paths, que@));
                            if k >= qi as int - 1 {
                                assert(paths[(que@[qi as int - 1].0 as int)].len() <= paths[(
                                que@[k].0 as int)].len());
                                assert(false);
                            }
                            assert(enq.contains(fti));
                        }
                    }
                }
                let ghost nodes_a = nodes@;
                nodes[nxt.idx()].fail = ft;
                let ghost nodes_b = nodes@;
                let ghost facc = nodes@[ft.0 as int].accepts@;
                let ghost acc0 = nodes@[nxt.0 as int].accepts@;
                proof {
                    assert(forall|p: int|
                        0 <= p < nodes_b.len() && p != nxt.0 as int ==> nodes_b[p]
                            == nodes_a[p]);
                    assert(nodes_b[nxt.0 as int].next@ == nodes_a[nxt.0 as int].next@);
                    assert(nodes_b[nxt.0 as int].accepts@ == nodes_a[nxt.0 as int].accepts@);
                    assert(nodes_b[nxt.0 as int].fail == ft);
                    assert(ft.0 as int != nxt.0 as int);
                    assert(acc0 + facc.take(0) =~= acc0);
                }
                let flen = nodes[ft.idx()].accepts.len();
                let mut t: usize = 0;
                while t < flen
                    invariant
                        t <= facc.len(),
                        flen as int == facc.len(),
                        (ft.0 as int) != (nxt.0 as int),
                        (ft.0 as int) < nodes@.len(),
                        (nxt.0 as int) < nodes@.len(),
                        nodes@.len() == nodes_b.len(),
                        forall|p: int|
                            0 <= p < nodes@.len() && p != nxt.0 as int ==> nodes@[p]
                                == nodes_b[p],
                        nodes@[nxt.0 as int].next@ == nodes_b[nxt.0 as int].next@,
                        nodes@[nxt.0 as int].fail == nodes_b[nxt.0 as int].fail,
                        nodes@[nxt.0 as int].accepts@ == acc0 + facc.take(t as int),
                    decreases flen - t,
                {
                    let v = nodes[ft.idx()].accepts[t];
                    nodes[nxt.idx()].accepts.push(v);
                    t += 1;
                    proof {
                        assert(acc0 + facc.take(t as int) =~= (acc0 + facc.take(
                            t as int - 1,
                        )).push(facc[t as int - 1]));
                    }
                }
                let ghost qold = que@;
                que.push(nxt);
                proof {
                    let nodes2 = nodes@;
                    let nxti = nxt.0 as int;
                    let fti = ft.0 as int;
                    assert(facc.take(facc.len() as int) =~= facc);
                    assert(nodes2[nxti].accepts@ == acc0 + facc);
                    assert(forall|p: int|
                        0 <= p < nodes2.len() && p != nxti ==> nodes2[p] == nodes_a[p]);
                    assert(forall|p: int|
                        0 <= p < nodes2.len() ==> (#[trigger] nodes2[p]).next@
                            == nodes_a[p].next@);
                    assert(forall|p: int, cc: int|
                        0 <= p < nodes_a.len() && 0 <= cc < CHAR_MAX as int && (#[trigger]
                    nodes_a[p].next@[cc]).0 != NODE_EMPTY ==> nodes2[p].next@[cc]
                        == nodes_a[p].next@[cc]);
                    assert(nodes_basic(nodes2, paths));
                    assert forall|p: int, cc: int|
                        0 <= p < nodes2.len() && 0 <= cc < CHAR_MAX as int && (#[trigger]
                    nodes2[p].next@[cc]).0 != NODE_EMPTY implies {
                        let m = nodes2[p].next@[cc].0 as int;
                        &&& cc < mo
                        &&& code_assigned(ord@, cc)
                        &&& 0 <= m < nodes2.len()
                        &&& (m == 0 ==> p == 0)
                        &&& (m != 0 ==> paths[m] == paths[p].push(byte_of(ord@, cc)))
                    } by {
                        assert(nodes2[p].next@[cc] == nodes_a[p].next@[cc]);
                    }
                    assert(edges_wf(nodes2, paths, ord@, mo));
                    assert forall|n1: int, cc1: int, n2: int, cc2: int|
                        0 <= n1 < nodes2.len() && 0 <= cc1 < CHAR_MAX as int && 0 <= n2
                        < nodes2.len() && 0 <= cc2 < CHAR_MAX as int && (#[trigger]
                    nodes2[n1].next@[cc1]).0 != NODE_EMPTY && nodes2[n1].next@[cc1].0 == (
                    #[trigger] nodes2[n2].next@[cc2]).0 && nodes2[n1].next@[cc1].0 != 0 implies
                        n1 == n2 && cc1 == cc2 by {
                        assert(nodes2[n1].next@[cc1] == nodes_a[n1].next@[cc1]);
                        assert(nodes2[n2].next@[cc2] == nodes_a[n2].next@[cc2]);
                    }
                    assert(unique_parent(nodes2));
                    assert forall|m: int| 1 <= m < nodes2.len() implies #[trigger] has_parent(
                        nodes2,
                        m,
                    ) by {
                        assert(has_parent(nodes_a, m));
                        let (pp, cc) = choose|pp: int, cc: int|
                            0 <= pp < nodes_a.len() && 0 <= cc < CHAR_MAX as int && (#[trigger]
                        nodes_a[pp].next@[cc]).0 != NODE_EMPTY && (nodes_a[pp].next@[cc].0 as int)
                            == m;
                        assert(nodes2[pp].next@[cc] == nodes_a[pp].next@[cc]);
                    }
                    assert(parent_exists(nodes2));
                    assert(root_total(nodes2, mo));
                    assert forall|n: int, x: int|
                        0 <= n < nodes2.len() && 0 <= x < nodes2[n].accepts@.len() implies {
                        let id = (#[trigger] nodes2[n].accepts@[x]).0 as int;
                        &&& 0 <= id < keysv.len()
                        &&& keysv[id].len() >= 1
                        &&& is_suffix_of(keysv[id], paths[n])
                    } by {
                        if n == nxti {
                            if x < acc0.len() {
                                assert(nodes2[n].accepts@[x] == nodes_a[n].accepts@[x]);
                            } else {
                                assert(nodes2[n].accepts@[x] == facc[x - acc0.len()]);
                                assert(facc == nodes_a[fti].accepts@);
                                let id = facc[x - acc0.len()].0 as int;
                                assert(is_suffix_of(keysv[id], paths[fti]));
                                lemma_suffix_trans(keysv[id], paths[fti], paths[nxti]);
                            }
                        } else {
                            assert(nodes2[n].accepts@ == nodes_a[n].accepts@);
                        }
                    }
                    assert(accepts_sound(nodes2, paths, keysv));
                    assert forall|ii: int| 0 <= ii < keysv.len() as int implies ((
                    #[trigger] walk(nodes2, ord@, 0, keysv[ii])) matches Some(n) && 0 <= n
                        < nodes2.len() && nodes2[n].accepts@.contains(PatId(ii as u32))) by {
                        lemma_walk_preserved(nodes_a, nodes2, ord@, 0, keysv[ii]);
                        match walk(nodes_a, ord@, 0, keysv[ii]) {
                            Some(n) => {
                                assert(nodes_a[n].accepts@.contains(PatId(ii as u32)));
                                let x = choose|x: int|
                                    0 <= x < nodes_a[n].accepts@.len() && nodes_a[n].accepts@[x]
                                        == PatId(ii as u32);
                                if n == nxti {
                                    assert(nodes2[n].accepts@[x] == PatId(ii as u32));
                                } else {
                                    assert(nodes2[n].accepts@ == nodes_a[n].accepts@);
                                }
                            },
                            None => {},
                        }
                    }
                    assert(ac_inserted(nodes2, ord@, keysv, keysv.len() as int));
                    assert forall|n: int, i2: int|
                        #![trigger paths[n], keysv[i2]]
                        0 <= n < nodes2.len() && 0 <= i2 < keysv.len() && paths[n] == keysv[i2]
                        implies nodes2[n].accepts@.contains(PatId(i2 as u32)) by {
                        assert(nodes_a[n].accepts@.contains(PatId(i2 as u32)));
                        let x = choose|x: int|
                            0 <= x < nodes_a[n].accepts@.len() && nodes_a[n].accepts@[x] == PatId(
                                i2 as u32,
                            );
                        if n == nxti {
                            assert(nodes2[n].accepts@[x] == PatId(i2 as u32));
                        } else {
                            assert(nodes2[n].accepts@ == nodes_a[n].accepts@);
                        }
                    }
                    assert(accepts_exact(nodes2, paths, keysv, keysv.len() as int));
                    let bb2 = byte_of(ord@, c2 as int);
                    assert(paths[nxti] == paths[curi].push(bb2));
                    assert forall|m: int|
                        0 <= m < nodes2.len() && #[trigger] is_suffix_of(paths[m], paths[nxti])
                            && paths[m].len() < paths[nxti].len() implies paths[m].len()
                        <= paths[fti].len() by {
                        if paths[m].len() >= 1 {
                            lemma_suffix_pop(paths[m], paths[curi], bb2);
                            let pm = lemma_parent_decompose(
                                nodes_a,
                                paths,
                                ord@,
                                mo,
                                m,
                                c2 as int,
                            );
                            assert(is_suffix_of(paths[pm], paths[curi]));
                            assert(paths[pm].len() < paths[curi].len());
                            assert(nodes_a[pm].next@[c2 as int].0 != NODE_EMPTY);
                            assert(paths[pm].len() <= paths[cfail as int].len());
                            if fti == 0 {
                                assert(cfail as int == 0);
                                assert(paths[pm].len() == 0);
                                assert(paths[pm] =~= Seq::<u8>::empty());
                                assert(paths[pm] == paths[0]);
                                assert(pm == 0);
                                assert((nodes_a[pm].next@[c2 as int].0 as int) == m);
                                assert((nodes_a[0].next@[c2 as int].0 as int) == 0);
                                assert(false);
                            } else {
                                assert(paths[fti].len() == paths[cfail as int].len() + 1);
                            }
                        }
                    }
                    assert(longest_suffix_at(paths, nodes2.len() as int, nxti, fti));
                    assert forall|i2: int|
                        0 <= i2 < keysv.len() && #[trigger] is_suffix_of(keysv[i2], paths[nxti])
                        implies nodes2[nxti].accepts@.contains(PatId(i2 as u32)) by {
                        if keysv[i2].len() == paths[nxti].len() {
                            assert(keysv[i2] == paths[nxti].subrange(0, paths[nxti].len() as int));
                            assert(paths[nxti].subrange(0, paths[nxti].len() as int)
                                =~= paths[nxti]);
                            assert(paths[nxti] == keysv[i2]);
                            assert(nodes2[nxti].accepts@.contains(PatId(i2 as u32)));
                        } else {
                            assert(keysv[i2].len() >= 1);
                            assert(is_state(paths, nodes_a.len() as int, keysv[i2]));
                            let ms = choose|ms: int|
                                0 <= ms < nodes_a.len() && (#[trigger] paths[ms]) == keysv[i2];
                            assert(is_suffix_of(paths[ms], paths[nxti]));
                            assert(paths[ms].len() <= paths[fti].len());
                            if fti == 0 {
                                assert(keysv[i2].len() == 0);
                                assert(false);
                            }
                            lemma_suffix_compare(keysv[i2], paths[fti], paths[nxti]);
                            assert(enq.contains(fti));
                            let kf = choose|kf: int|
                                0 <= kf < qold.len() && (#[trigger] qold[kf]).0 as int == fti;
                            assert(queued_ok(nodes_a, paths, keysv, fti));
                            assert(row_complete(paths, keysv, fti, nodes_a[fti].accepts@));
                            assert(facc == nodes_a[fti].accepts@);
                            assert(facc.contains(PatId(i2 as u32)));
                            let x = choose|x: int|
                                0 <= x < facc.len() && facc[x] == PatId(i2 as u32);
                            assert(nodes2[nxti].accepts@[acc0.len() + x] == PatId(i2 as u32));
                        }
                    }
                    assert(row_complete(paths, keysv, nxti, nodes2[nxti].accepts@));
                    if enq.contains(nxti) {
                        let k = choose|k: int|
                            0 <= k < qold.len() && (#[trigger] qold[k]).0 as int == nxti;
                        assert(parented(nodes_a, qold, qi as int - 1, curi, c2 as int, k));
                        let (pp, cc) = lemma_parented_unfold(
                            nodes_a,
                            qold,
                            qi as int - 1,
                            curi,
                            c2 as int,
                            k,
                        );
                        assert(nodes_a[curi].next@[c2 as int].0 as int == nxti);
                        assert(pp == curi && cc == c2 as int);
                        if pp == 0 {
                            assert(false);
                        } else if exists|k2: int|
                            0 <= k2 < qi as int - 1 && (#[trigger] qold[k2]).0 as int == pp {
                            let k2 = choose|k2: int|
                                0 <= k2 < qi as int - 1 && (#[trigger] qold[k2]).0 as int
                                    == pp;
                            assert(qold[k2].0 == qold[qi as int - 1].0);
                            assert(false);
                        } else {
                            assert(false);
                        }
                    }
                    assert(!enq.contains(nxti));
                    assert(row_own(paths, keysv, nxti, nodes_a[nxti].accepts@));
                    assert(acc0 == nodes_a[nxti].accepts@);
                    assert forall|x: int, y: int|
                        #![trigger nodes2[nxti].accepts@[x], nodes2[nxti].accepts@[y]]
                        0 <= x < y < nodes2[nxti].accepts@.len() implies (keysv[(
                    nodes2[nxti].accepts@[x].0 as int)].len() > keysv[(
                    nodes2[nxti].accepts@[y].0 as int)].len() || (keysv[(
                    nodes2[nxti].accepts@[x].0 as int)].len() == keysv[(
                    nodes2[nxti].accepts@[y].0 as int)].len() && nodes2[nxti].accepts@[x].0
                        < nodes2[nxti].accepts@[y].0)) by {
                        if y < acc0.len() {
                            assert(nodes2[nxti].accepts@[x] == acc0[x]);
                            assert(nodes2[nxti].accepts@[y] == acc0[y]);
                            assert(keysv[(acc0[x].0 as int)] == paths[nxti]);
                            assert(keysv[(acc0[y].0 as int)] == paths[nxti]);
                        } else if x < acc0.len() {
                            assert(nodes2[nxti].accepts@[x] == acc0[x]);
                            assert(nodes2[nxti].accepts@[y] == facc[y - acc0.len()]);
                            assert(keysv[(acc0[x].0 as int)] == paths[nxti]);
                            assert(nodes_a[fti].accepts@[y - acc0.len()] == facc[y - acc0.len()]);
                            assert(is_suffix_of(
                                keysv[(facc[y - acc0.len()].0 as int)],
                                paths[fti],
                            ));
                            assert(keysv[(facc[y - acc0.len()].0 as int)].len()
                                <= paths[fti].len());
                            assert(paths[fti].len() < paths[nxti].len());
                        } else {
                            assert(nodes2[nxti].accepts@[x] == facc[x - acc0.len()]);
                            assert(nodes2[nxti].accepts@[y] == facc[y - acc0.len()]);
                            assert(row_ordered(keysv, facc));
                        }
                    }
                    assert(row_ordered(keysv, nodes2[nxti].accepts@));
                    enq = enq.insert(nxti);
                    assert forall|n: int|
                        0 <= n < nodes2.len() && !enq.contains(n) implies #[trigger] row_own(
                        paths,
                        keysv,
                        n,
                        nodes2[n].accepts@,
                    ) by {
                        assert(n != nxti);
                        assert(nodes2[n].accepts@ == nodes_a[n].accepts@);
                        assert(row_own(paths, keysv, n, nodes_a[n].accepts@));
                    }
                    assert forall|n: int| #[trigger] enq.contains(n) implies exists|k: int|
                        0 <= k < que@.len() && (#[trigger] que@[k]).0 as int == n by {
                        if n == nxti {
                            assert(que@[que@.len() - 1].0 as int == n);
                        } else {
                            let k = choose|k: int|
                                0 <= k < qold.len() && (#[trigger] qold[k]).0 as int == n;
                            assert(que@[k].0 as int == n);
                        }
                    }
                    assert forall|n: int| (exists|k: int|
                        0 <= k < que@.len() && (#[trigger] que@[k]).0 as int == n) implies
                        #[trigger] enq.contains(n) by {
                        let k = choose|k: int|
                            0 <= k < que@.len() && (#[trigger] que@[k]).0 as int == n;
                        if k < que@.len() - 1 {
                            assert(qold[k].0 as int == n);
                        }
                    }
                    assert(nodes2[nxti].fail == ft);
                    assert(ft.0 != NODE_EMPTY);
                    assert(fail_wf_at(nodes2, paths, nxti));
                    assert forall|k: int| 0 <= k < que@.len() implies {
                        let n = (#[trigger] que@[k]).0 as int;
                        &&& queued_ok(nodes2, paths, keysv, n)
                        &&& (nodes2[n].fail.0 as int == 0 || enq.contains(
                            nodes2[n].fail.0 as int,
                        ))
                    } by {
                        let n = que@[k].0 as int;
                        if k < que@.len() - 1 {
                            assert(n != nxti);
                            assert(nodes2[n] == nodes_a[n]);
                            assert(qold[k].0 as int == n);
                            assert(queued_ok(nodes_a, paths, keysv, n));
                            assert(fail_wf_at(nodes2, paths, n));
                            assert(queued_ok(nodes2, paths, keysv, n));
                        } else {
                            assert(n == nxti);
                            assert(queued_ok(nodes2, paths, keysv, nxti));
                        }
                    }
                    assert(forall|k2: int|
                        0 <= k2 < qold.len() ==> (#[trigger] que@[k2]).0 == qold[k2].0);
                    assert forall|k: int| 0 <= k < que@.len() implies #[trigger] parented(
                        nodes2,
                        que@,
                        qi as int - 1,
                        curi,
                        c2 as int + 1,
                        k,
                    ) by {
                        if k < que@.len() - 1 {
                            assert(parented(nodes_a, qold, qi as int - 1, curi, c2 as int, k));
                            lemma_parented_preserved(
                                nodes_a,
                                nodes2,
                                qold,
                                que@,
                                qi as int - 1,
                                curi,
                                c2 as int,
                                k,
                            );
                            lemma_parented_weaken(
                                nodes2,
                                que@,
                                qi as int - 1,
                                curi,
                                c2 as int,
                                qi as int - 1,
                                curi,
                                c2 as int + 1,
                                k,
                            );
                        } else {
                            assert(nodes2[curi].next@[c2 as int].0 as int == (
                            que@[k].0 as int));
                            assert(nodes2[curi].next@[c2 as int].0 != NODE_EMPTY);
                        }
                    }
                    assert(depth_sorted(paths, qold));
                    assert(frontier_ok(paths, qold, qi as int));
                    assert forall|k1: int, k2: int|
                        0 <= k1 <= k2 < que@.len() implies paths[(
                    #[trigger] que@[k1]).0 as int].len() <= paths[(
                    #[trigger] que@[k2]).0 as int].len() by {
                        if k2 == que@.len() - 1 && k1 < k2 {
                            assert(qold[k1].0 == que@[k1].0);
                            assert(paths[(que@[k2].0 as int)].len() == paths[curi].len() + 1);
                            if k1 < qi as int {
                                assert(paths[(qold[k1].0 as int)].len() <= paths[(qold[qi as int
                                    - 1].0 as int)].len());
                            } else {
                                assert(paths[(qold[k1].0 as int)].len() <= paths[curi].len()
                                    + 1);
                            }
                        } else if k2 < que@.len() - 1 {
                            assert(qold[k1].0 == que@[k1].0 && qold[k2].0 == que@[k2].0);
                            assert(paths[(qold[k1].0 as int)].len() <= paths[(
                            qold[k2].0 as int)].len());
                        }
                    }
                    assert(depth_sorted(paths, que@));
                    assert forall|k: int|
                        qi as int <= k < que@.len() implies paths[(
                    #[trigger] que@[k]).0 as int].len() <= paths[(que@[qi as int
                        - 1].0 as int)].len() + 1 by {
                        assert(que@[qi as int - 1].0 == qold[qi as int - 1].0);
                        if k < que@.len() - 1 {
                            assert(qold[k].0 == que@[k].0);
                            assert(paths[(qold[k].0 as int)].len() <= paths[(qold[qi as int
                                - 1].0 as int)].len() + 1);
                        }
                    }
                    assert(frontier_ok(paths, que@, qi as int));
                }
            } else {
                proof {
                    assert forall|k: int| 0 <= k < que@.len() implies #[trigger] parented(
                        nodes@,
                        que@,
                        qi as int - 1,
                        curi,
                        c2 as int + 1,
                        k,
                    ) by {
                        lemma_parented_weaken(
                            nodes@,
                            que@,
                            qi as int - 1,
                            curi,
                            c2 as int,
                            qi as int - 1,
                            curi,
                            c2 as int + 1,
                            k,
                        );
                    }
                }
            }
            c2 += 1;
        }
        proof {
            assert(que@[qi as int - 1].0 as int == curi);
            assert forall|k: int| 0 <= k < que@.len() implies #[trigger] parented(
                nodes@,
                que@,
                qi as int,
                0,
                0,
                k,
            ) by {
                lemma_parented_weaken(
                    nodes@,
                    que@,
                    qi as int - 1,
                    curi,
                    mo_usize as int,
                    qi as int,
                    0,
                    0,
                    k,
                );
            }
            assert forall|k: int, cc: int|
                0 <= k < qi as int && 0 <= cc < CHAR_MAX as int && (#[trigger] nodes@[(
                que@[k].0 as int)].next@[cc]).0 != NODE_EMPTY implies enq.contains(
                nodes@[(que@[k].0 as int)].next@[cc].0 as int,
            ) by {
                if k == qi as int - 1 {
                    assert((que@[k].0 as int) == curi);
                    assert(cc < mo);
                }
            }
            assert(qi as int >= 1 ==> forall|k: int|
                qi as int <= k < que@.len() ==> paths[(#[trigger] que@[k]).0 as int].len()
                    <= paths[(que@[qi as int - 1].0 as int)].len() + 1);
        }
    }
    Ghost(enq)
}


} // verus!
