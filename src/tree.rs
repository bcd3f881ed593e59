use vstd::prelude::*;

use crate::layout::acyclic;
use crate::layout::between_ok;
use crate::layout::desc_up;
use crate::layout::preorder;
use crate::layout::layout;
use crate::layout::links_ok;
use crate::layout::reaches_root;
use crate::process::before;
use crate::process::SortBy;
use crate::process::push_text;
use crate::process::sat_add;
use crate::process::Process;

verus! {

/// The index of the first record of `s` with process id `pid`.
pub open spec fn find_pid(s: Seq<Process>, pid: u32) -> Option<int>
    decreases s.len(),
{
    if s.len() == 0 {
        None
    } else {
        match find_pid(s.drop_last(), pid) {
            Some(j) => Some(j),
            None => if s.last().pid == pid {
                Some(s.len() - 1)
            } else {
                None
            },
        }
    }
}

/// The records with one entry per process id: the first record of each id, in
/// order of first appearance, with the CPU and memory of all records of that id
/// added up.
pub open spec fn merged(s: Seq<Process>) -> Seq<Process>
    decreases s.len(),
{
    if s.len() == 0 {
        Seq::empty()
    } else {
        let prev = merged(s.drop_last());
        let r = s.last();
        match find_pid(prev, r.pid) {
            Some(j) => prev.update(
                j,
                Process { cpu: sat_add(prev[j].cpu, r.cpu), ram: sat_add(prev[j].ram, r.ram), ..prev[j] },
            ),
            None => prev.push(r),
        }
    }
}

/// No two records share a process id.
pub open spec fn unique_pids(s: Seq<Process>) -> bool {
    forall|i: int, j: int| 0 <= i < j < s.len() ==> #[trigger] s[i].pid != #[trigger] s[j].pid
}

/// For each record, the index of the record its parent id names, if any.
pub open spec fn parent_links(s: Seq<Process>) -> Seq<Option<usize>> {
    Seq::new(
        s.len(),
        |t: int|
            match s[t].parent {
                Some(pp) => match find_pid(s, pp) {
                    Some(j) => Some(j as usize),
                    None => None,
                },
                None => None,
            },
    )
}

/// A forest of processes: the records, and over them a depth-first pre-order
/// of rows, each naming its record and the row of its parent.
pub struct Forest {
    nodes: Vec<Process>,
    order: Vec<usize>,
    up: Vec<Option<usize>>,
}

/// One display row: the tree-drawing prefix and the process.
pub struct WithPrefix<'a> {
    pub prefix: String,
    pub node: &'a Process,
}

spec fn slot_of(o: Option<usize>, m: int) -> int {
    match o {
        Some(q) => q as int,
        None => m,
    }
}

impl Forest {
    pub closed spec fn node_seq(&self) -> Seq<Process> {
        self.nodes@
    }

    pub closed spec fn order_seq(&self) -> Seq<usize> {
        self.order@
    }

    /// For each row, the row of its parent.
    pub closed spec fn up_seq(&self) -> Seq<Option<usize>> {
        self.up@
    }

    /// Some row shows `p`.
    pub open spec fn has_row(&self, p: Process) -> bool {
        exists|k: int| 0 <= k < self.rows().len() && self.rows()[k] == p
    }

    /// The process shown in each row.
    pub open spec fn rows(&self) -> Seq<Process> {
        self.order_seq().map_values(|i: usize| self.node_seq()[i as int])
    }

    /// Well-formed: the rows name distinct records, each row's parent comes
    /// before it, and the rows are in depth-first pre-order.
    pub open spec fn wf(&self) -> bool {
        &&& self.wf_links()
        &&& preorder(self.up_seq())
    }

    pub open spec fn wf_links(&self) -> bool {
        &&& self.order_seq().len() <= usize::MAX
        &&& self.order_seq().len() == self.up_seq().len()
        &&& forall|k: int| 0 <= k < self.order_seq().len() ==> #[trigger] self.order_seq()[k] < self.node_seq().len()
        &&& forall|k1: int, k2: int|
            0 <= k1 < k2 < self.order_seq().len() ==> #[trigger] self.order_seq()[k1] != #[trigger] self.order_seq()[k2]
        &&& forall|k: int|
            0 <= k < self.up_seq().len() ==> (#[trigger] self.up_seq()[k] matches Some(q) ==> q < k)
    }

    /// Row `k` has a later row with the same parent.
    pub open spec fn has_next_sibling(&self, k: int) -> bool {
        exists|j: int| k < j < self.up_seq().len() && #[trigger] self.up_seq()[j] == self.up_seq()[k]
    }

    /// The part of a row's prefix that its ancestors contribute: a bar for each
    /// ancestor with a later sibling, blank otherwise, outermost first.
    pub open spec fn lead(&self, k: int) -> Seq<char>
        decreases k,
    {
        if 0 <= k < self.up_seq().len() {
            match self.up_seq()[k] {
                Some(q) => if q < k {
                    self.lead(q as int) + if self.has_next_sibling(q as int) {
                        "│  "@
                    } else {
                        "   "@
                    }
                } else {
                    Seq::empty()
                },
                None => Seq::empty(),
            }
        } else {
            Seq::empty()
        }
    }

    /// The full prefix of row `k`: its lead, then a tee, or a corner for a last child.
    pub open spec fn prefix(&self, k: int) -> Seq<char> {
        self.lead(k) + if self.has_next_sibling(k) {
            "├─ "@
        } else {
            "└─ "@
        }
    }

    /// The forest that `new_forest` builds from `records`.
    pub open spec fn built_from(&self, records: Seq<Process>) -> bool {
        let nodes = merged(records);
        let links = parent_links(nodes);
        &&& self.wf()
        &&& self.node_seq() == nodes
        &&& self.order_seq().len() == nodes.len()
        &&& forall|k: int|
            0 <= k < self.up_seq().len() ==> (#[trigger] self.up_seq()[k] matches Some(q) ==> links[self.order_seq()[k] as int]
                == Some(self.order_seq()[q as int]))
        &&& forall|k1: int, k2: int|
            0 <= k1 < k2 < self.up_seq().len() && #[trigger] self.up_seq()[k1] is Some && self.up_seq()[k1] == #[trigger] self.up_seq()[k2]
                ==> self.order_seq()[k1] < self.order_seq()[k2]
        &&& forall|k: int|
            0 <= k < self.up_seq().len() && reaches_root(links, self.order_seq()[k] as int, links.len() as nat)
                ==> (#[trigger] self.up_seq()[k] is None <==> links[self.order_seq()[k] as int] is None)
        &&& acyclic(links) ==> forall|k1: int, k2: int|
            0 <= k1 < k2 < self.up_seq().len() && #[trigger] self.up_seq()[k1] is None && #[trigger] self.up_seq()[k2] is None
                ==> self.order_seq()[k1] < self.order_seq()[k2]
    }

    pub fn empty() -> (r: Forest)
        ensures
            r.wf(),
            r.rows().len() == 0,
    {
        Forest { nodes: Vec::new(), order: Vec::new(), up: Vec::new() }
    }

    /// Builds the forest of `records`: records of one id are merged, each record
    /// hangs under the record its parent id names, and a record whose chain of
    /// parents runs in a circle becomes a root.
    pub fn new_forest(records: Vec<Process>) -> (r: Forest)
        ensures
            r.built_from(records@),
    {
        let nodes = merge_records(records);
        let links = links_of(&nodes);
        let (order, up) = layout(&links);
        let rows = order.len();
        assert(order@.len() == rows);
        Forest { nodes, order, up }
    }

    fn next_sibling_flags(&self) -> (r: Vec<bool>)
        requires
            self.wf(),
        ensures
            r@.len() == self.up_seq().len(),
            forall|k: int| 0 <= k < r@.len() ==> #[trigger] r@[k] == self.has_next_sibling(k),
    {
        let m = self.up.len();
        let mut r: Vec<bool> = Vec::new();
        let mut seen: Vec<bool> = Vec::new();
        let mut k: usize = 0;
        while k < m
            invariant
                m == self.up@.len(),
                k <= m,
                seen@.len() == k,
                r@.len() == k,
                forall|j: int| 0 <= j < seen@.len() ==> !#[trigger] seen@[j],
            decreases m - k,
        {
            seen.push(false);
            r.push(false);
            k = k + 1;
        }
        seen.push(false);
        k = m;
        while k > 0
            invariant
                self.wf(),
                m == self.up@.len(),
                k <= m,
                seen@.len() == m + 1,
                r@.len() == m,
                forall|j: int| k <= j < m ==> #[trigger] r@[j] == self.has_next_sibling(j),
                forall|c: int| 0 <= c <= m ==> (#[trigger] seen@[c] <==> exists|j: int| k <= j < m && slot_of(self.up@[j], m as int) == c),
            decreases k,
        {
            k = k - 1;
            let slot = match self.up[k] {
                Some(q) => q,
                None => m,
            };
            proof {
                assert(self.up@[k as int] matches Some(q) ==> q < k);
                assert forall|j: int| k < j < m && slot_of(self.up@[j], m as int) == slot implies self.up@[j] == self.up@[k as int] by {
                    if let Some(q) = self.up@[j] {
                        assert(q < j);
                    }
                }
                if seen@[slot as int] {
                    let j = choose|j: int| k + 1 <= j < m && slot_of(self.up@[j], m as int) == slot;
                    assert(self.up@[j] == self.up@[k as int]);
                }
                if self.has_next_sibling(k as int) {
                    let j = choose|j: int| k < j < self.up_seq().len() && #[trigger] self.up_seq()[j] == self.up_seq()[k as int];
                    assert(slot_of(self.up@[j], m as int) == slot);
                }
            }
            let flag = seen[slot];
            r.set(k, flag);
            seen.set(slot, true);
            proof {
                assert forall|c: int| 0 <= c <= m implies (#[trigger] seen@[c] <==> exists|j: int| k <= j < m && slot_of(self.up@[j], m as int) == c) by {
                    if c == slot {
                        assert(slot_of(self.up@[k as int], m as int) == c);
                    } else if seen@[c] {
                        let j = choose|j: int| k + 1 <= j < m && slot_of(self.up@[j], m as int) == c;
                        assert(k <= j < m && slot_of(self.up@[j], m as int) == c);
                    } else {
                        if exists|j: int| k <= j < m && slot_of(self.up@[j], m as int) == c {
                            let j = choose|j: int| k <= j < m && slot_of(self.up@[j], m as int) == c;
                            assert(j != k);
                        }
                    }
                }
            }
        }
        r
    }

    /// The rows with their tree-drawing prefixes, in depth-first pre-order.
    pub fn render_forest_prefixes(&self) -> (r: Vec<WithPrefix<'_>>)
        requires
            self.wf(),
        ensures
            r@.len() == self.rows().len(),
            forall|k: int| 0 <= k < r@.len() ==> (#[trigger] r@[k]).prefix@ == self.prefix(k) && *r@[k].node == self.rows()[k],
    {
        let m = self.order.len();
        let next = self.next_sibling_flags();
        let mut leads: Vec<String> = Vec::new();
        let mut r: Vec<WithPrefix<'_>> = Vec::new();
        let mut k: usize = 0;
        proof {
            reveal_strlit("│  ");
            reveal_strlit("   ");
            reveal_strlit("├─ ");
            reveal_strlit("└─ ");
        }
        while k < m
            invariant
                self.wf(),
                m == self.order@.len(),
                k <= m,
                next@.len() == m,
                forall|j: int| 0 <= j < m ==> #[trigger] next@[j] == self.has_next_sibling(j),
                leads@.len() == k,
                r@.len() == k,
                forall|j: int| 0 <= j < k ==> (#[trigger] leads@[j])@ == self.lead(j),
                forall|j: int| 0 <= j < k ==> (#[trigger] r@[j]).prefix@ == self.prefix(j) && *r@[j].node == self.rows()[j],
            decreases m - k,
        {
            let mut lead = String::new();
            match self.up[k] {
                Some(q) => {
                    lead = leads[q].clone();
                    if next[q] {
                        push_text(&mut lead, "│  ");
                    } else {
                        push_text(&mut lead, "   ");
                    }
                },
                None => {},
            }
            proof {
                assert(lead@ =~= self.lead(k as int));
            }
            let mut prefix = lead.clone();
            if next[k] {
                push_text(&mut prefix, "├─ ");
            } else {
                push_text(&mut prefix, "└─ ");
            }
            leads.push(lead);
            r.push(WithPrefix { prefix, node: &self.nodes[self.order[k]] });
            k = k + 1;
        }
        r
    }

    /// Row `d` lies in the subtree of row `a` (or is `a`).
    pub open spec fn is_desc(&self, d: int, a: int) -> bool {
        desc_up(self.up_seq(), d, a)
    }

    /// The process of row `k` is visible under the current search.
    pub open spec fn matched(&self, k: int) -> bool {
        self.rows()[k].visible is Visible
    }

    /// Row `k` or one of its ancestors is visible.
    pub open spec fn matched_above(&self, k: int) -> bool {
        exists|a: int| 0 <= a < self.rows().len() && #[trigger] self.is_desc(k, a) && self.matched(a)
    }

    /// Row `k` or one of its descendants is visible.
    pub open spec fn matched_below(&self, k: int) -> bool {
        exists|d: int| 0 <= d < self.rows().len() && #[trigger] self.is_desc(d, k) && self.matched(d)
    }

    /// Row `k` survives filtering.
    pub open spec fn kept(&self, k: int) -> bool {
        self.matched_above(k) || self.matched_below(k)
    }

    /// `self` is `old` with exactly the kept rows, in order, each under the
    /// same parent; `src` gives the old row of each new row.
    pub open spec fn filtered_from(&self, old: &Forest, src: Seq<int>) -> bool {
        &&& self.node_seq() == old.node_seq()
        &&& src.len() == self.order_seq().len()
        &&& src.len() == self.up_seq().len()
        &&& forall|j: int| 0 <= j < src.len() ==> 0 <= #[trigger] src[j] < old.order_seq().len()
        &&& forall|j1: int, j2: int| 0 <= j1 < j2 < src.len() ==> #[trigger] src[j1] < #[trigger] src[j2]
        &&& forall|k: int| 0 <= k < old.order_seq().len() ==> (old.kept(k) <==> exists|j: int| 0 <= j < src.len() && #[trigger] src[j] == k)
        &&& forall|j: int| 0 <= j < src.len() ==> self.order_seq()[j] == old.order_seq()[#[trigger] src[j]]
        &&& forall|j: int| 0 <= j < src.len() ==> match old.up_seq()[#[trigger] src[j]] {
            Some(q) => self.up_seq()[j] matches Some(jq) && 0 <= jq < src.len() && src[jq as int] == q,
            None => self.up_seq()[j] is None,
        }
    }

    proof fn lemma_desc_child(&self, d: int, k: int)
        requires
            self.wf(),
            self.is_desc(d, k),
            d != k,
        ensures
            exists|c: int| 0 <= c < self.up_seq().len() && self.up_seq()[c] == Some(k as usize) && #[trigger] self.is_desc(d, c),
        decreases d,
    {
        let q = self.up_seq()[d].unwrap() as int;
        if q == k {
            assert(self.is_desc(d, d));
        } else {
            self.lemma_desc_child(q, k);
            let c = choose|c: int| 0 <= c < self.up_seq().len() && self.up_seq()[c] == Some(k as usize) && #[trigger] self.is_desc(q, c);
            assert(self.is_desc(d, c));
        }
    }

    proof fn lemma_desc_up(&self, d: int, c: int)
        requires
            self.wf(),
            0 <= c < self.up_seq().len(),
            self.up_seq()[c] is Some,
            self.is_desc(d, c),
        ensures
            self.is_desc(d, self.up_seq()[c].unwrap() as int),
        decreases d,
    {
        let k = self.up_seq()[c].unwrap() as int;
        if d == c {
            assert(self.is_desc(k, k));
        } else {
            let q = self.up_seq()[d].unwrap() as int;
            self.lemma_desc_up(q, c);
        }
    }

    proof fn lemma_desc_range(&self, d: int, a: int)
        requires
            self.wf(),
            self.is_desc(d, a),
            0 <= d < self.up_seq().len(),
        ensures
            0 <= a <= d,
        decreases d,
    {
        if d != a {
            let q = self.up_seq()[d].unwrap() as int;
            self.lemma_desc_range(q, a);
        }
    }

    proof fn lemma_kept_parent(&self, k: int)
        requires
            self.wf(),
            0 <= k < self.up_seq().len(),
            self.kept(k),
            self.up_seq()[k] is Some,
        ensures
            self.kept(self.up_seq()[k].unwrap() as int),
    {
        let q = self.up_seq()[k].unwrap() as int;
        if self.matched_above(k) {
            let a = choose|a: int| 0 <= a < self.rows().len() && #[trigger] self.is_desc(k, a) && self.matched(a);
            if a == k {
                assert(self.is_desc(k, k));
                self.lemma_desc_up(k, k);
                assert(self.is_desc(k, q));
            } else {
                assert(self.is_desc(q, a));
            }
        } else {
            let d = choose|d: int| 0 <= d < self.rows().len() && #[trigger] self.is_desc(d, k) && self.matched(d);
            self.lemma_desc_up(d, k);
            assert(self.is_desc(d, q));
        }
    }

    fn matched_flags(&self) -> (r: Vec<bool>)
        requires
            self.wf(),
        ensures
            r@.len() == self.up_seq().len(),
            forall|k: int| 0 <= k < r@.len() ==> #[trigger] r@[k] == self.matched(k),
    {
        let mut r: Vec<bool> = Vec::new();
        let mut k: usize = 0;
        while k < self.order.len()
            invariant
                self.wf(),
                k <= self.order@.len(),
                r@.len() == k,
                forall|j: int| 0 <= j < k ==> #[trigger] r@[j] == self.matched(j),
            decreases self.order@.len() - k,
        {
            let v = match &self.nodes[self.order[k]].visible {
                crate::process::Visible::Visible(_) => true,
                crate::process::Visible::NotVisible => false,
            };
            r.push(v);
            k = k + 1;
        }
        r
    }

    fn kept_flags(&self) -> (r: Vec<bool>)
        requires
            self.wf(),
        ensures
            r@.len() == self.up_seq().len(),
            forall|k: int| 0 <= k < r@.len() ==> #[trigger] r@[k] == self.kept(k),
    {
        let m = self.up.len();
        let matched = self.matched_flags();
        let mut above: Vec<bool> = Vec::new();
        let mut k: usize = 0;
        while k < m
            invariant
                self.wf(),
                m == self.up@.len(),
                k <= m,
                matched@.len() == m,
                forall|j: int| 0 <= j < m ==> #[trigger] matched@[j] == self.matched(j),
                above@.len() == k,
                forall|j: int| 0 <= j < k ==> #[trigger] above@[j] == self.matched_above(j),
            decreases m - k,
        {
            let a = match self.up[k] {
                Some(q) => matched[k] || above[q],
                None => matched[k],
            };
            proof {
                let kk = k as int;
                assert(self.is_desc(kk, kk));
                if let Some(q) = self.up@[kk] {
                    if above@[q as int] {
                        let x = choose|x: int| 0 <= x < self.rows().len() && #[trigger] self.is_desc(q as int, x) && self.matched(x);
                        assert(self.is_desc(kk, x));
                    }
                }
                if self.matched_above(kk) {
                    let x = choose|x: int| 0 <= x < self.rows().len() && #[trigger] self.is_desc(kk, x) && self.matched(x);
                    if x != kk {
                        assert(self.is_desc(self.up@[kk].unwrap() as int, x));
                    }
                }
            }
            above.push(a);
            k = k + 1;
        }
        let mut below: Vec<bool> = Vec::new();
        let mut flag: Vec<bool> = Vec::new();
        k = 0;
        while k < m
            invariant
                k <= m,
                below@.len() == k,
                flag@.len() == k,
                forall|j: int| 0 <= j < k ==> !#[trigger] flag@[j],
            decreases m - k,
        {
            below.push(false);
            flag.push(false);
            k = k + 1;
        }
        k = m;
        while k > 0
            invariant
                self.wf(),
                m == self.up@.len(),
                k <= m,
                matched@.len() == m,
                forall|j: int| 0 <= j < m ==> #[trigger] matched@[j] == self.matched(j),
                below@.len() == m,
                flag@.len() == m,
                forall|j: int| k <= j < m ==> #[trigger] below@[j] == self.matched_below(j),
                forall|j: int| 0 <= j < k ==> (#[trigger] flag@[j] <==> exists|c: int| k <= c < m && self.up@[c] == Some(j as usize) && #[trigger] self.matched_below(c)),
            decreases k,
        {
            k = k - 1;
            let b = matched[k] || flag[k];
            proof {
                let kk = k as int;
                assert(self.is_desc(kk, kk));
                if flag@[kk] {
                    let c = choose|c: int| kk + 1 <= c < m && self.up@[c] == Some(kk as usize) && #[trigger] self.matched_below(c);
                    let d = choose|d: int| 0 <= d < self.rows().len() && #[trigger] self.is_desc(d, c) && self.matched(d);
                    self.lemma_desc_up(d, c);
                }
                if self.matched_below(kk) && !matched@[kk] {
                    let d = choose|d: int| 0 <= d < self.rows().len() && #[trigger] self.is_desc(d, kk) && self.matched(d);
                    self.lemma_desc_child(d, kk);
                    let c = choose|c: int| 0 <= c < self.up_seq().len() && self.up_seq()[c] == Some(kk as usize) && #[trigger] self.is_desc(d, c);
                    assert(self.matched_below(c));
                    assert(c > kk);
                }
                if matched@[kk] {
                    assert(self.matched_below(kk));
                }
                assert(b == self.matched_below(kk));
            }
            let ghost flag0 = flag@;
            below.set(k, b);
            if b {
                match self.up[k] {
                    Some(q) => {
                        flag.set(q, true);
                    },
                    None => {},
                }
            }
            proof {
                let kk = k as int;
                assert forall|j: int| 0 <= j < kk implies (#[trigger] flag@[j] <==> exists|c: int| kk <= c < m && self.up@[c] == Some(j as usize) && #[trigger] self.matched_below(c)) by {
                    if exists|c: int| kk <= c < m && self.up@[c] == Some(j as usize) && #[trigger] self.matched_below(c) {
                        let c = choose|c: int| kk <= c < m && self.up@[c] == Some(j as usize) && #[trigger] self.matched_below(c);
                        if c != kk {
                            assert(kk + 1 <= c < m && self.up@[c] == Some(j as usize) && self.matched_below(c));
                        }
                    }
                    if flag@[j] && !(self.up@[kk] == Some(j as usize) && b) {
                        assert(flag0[j]);
                        let c = choose|c: int| kk + 1 <= c < m && self.up@[c] == Some(j as usize) && #[trigger] self.matched_below(c);
                        assert(kk <= c < m && self.up@[c] == Some(j as usize) && self.matched_below(c));
                    }
                    if exists|c: int| kk + 1 <= c < m && self.up@[c] == Some(j as usize) && #[trigger] self.matched_below(c) {
                        assert(flag0[j]);
                    }
                }
            }
        }
        let mut r: Vec<bool> = Vec::new();
        k = 0;
        while k < m
            invariant
                k <= m,
                above@.len() == m,
                below@.len() == m,
                forall|j: int| 0 <= j < m ==> #[trigger] above@[j] == self.matched_above(j),
                forall|j: int| 0 <= j < m ==> #[trigger] below@[j] == self.matched_below(j),
                r@.len() == k,
                forall|j: int| 0 <= j < k ==> #[trigger] r@[j] == self.kept(j),
            decreases m - k,
        {
            r.push(above[k] || below[k]);
            k = k + 1;
        }
        r
    }

    /// Keeps the rows that are visible or have a visible ancestor or descendant,
    /// each under the same parent as before.
    pub fn filter(&mut self)
        requires
            old(self).wf(),
        ensures
            final(self).wf(),
            exists|src: Seq<int>| final(self).filtered_from(old(self), src),
    {
        let ghost old_self = *self;
        let m = self.order.len();
        let keep = self.kept_flags();
        let mut newpos: Vec<usize> = Vec::new();
        let mut order: Vec<usize> = Vec::new();
        let mut up: Vec<Option<usize>> = Vec::new();
        let ghost mut src: Seq<int> = Seq::empty();
        let mut k: usize = 0;
        while k < m
            invariant
                old_self == *self,
                self.wf(),
                m == self.order@.len(),
                k <= m,
                keep@.len() == m,
                forall|j: int| 0 <= j < m ==> #[trigger] keep@[j] == self.kept(j),
                newpos@.len() == k,
                order@.len() == src.len(),
                up@.len() == src.len(),
                src.len() <= k,
                forall|j: int| 0 <= j < src.len() ==> 0 <= #[trigger] src[j] < k,
                forall|j1: int, j2: int| 0 <= j1 < j2 < src.len() ==> #[trigger] src[j1] < #[trigger] src[j2],
                forall|x: int| 0 <= x < k ==> (self.kept(x) <==> exists|j: int| 0 <= j < src.len() && #[trigger] src[j] == x),
                forall|x: int| 0 <= x < k && self.kept(x) ==> #[trigger] newpos@[x] < src.len() && src[newpos@[x] as int] == x,
                forall|j: int| 0 <= j < src.len() ==> order@[j] == self.order@[#[trigger] src[j]],
                forall|j: int| 0 <= j < src.len() ==> match self.up@[#[trigger] src[j]] {
                    Some(q) => up@[j] matches Some(jq) && 0 <= jq < j && src[jq as int] == q,
                    None => up@[j] is None,
                },
            decreases m - k,
        {
            if keep[k] {
                let link = match self.up[k] {
                    Some(q) => {
                        proof {
                            self.lemma_kept_parent(k as int);
                        }
                        Some(newpos[q])
                    },
                    None => None,
                };
                newpos.push(order.len());
                order.push(self.order[k]);
                up.push(link);
                let ghost src0 = src;
                proof {
                    src = src.push(k as int);
                    assert(src[src.len() - 1] == k as int);
                    assert forall|x: int| 0 <= x < k && self.kept(x) implies exists|j: int| 0 <= j < src.len() && #[trigger] src[j] == x by {
                        let j = choose|j: int| 0 <= j < src0.len() && #[trigger] src0[j] == x;
                        assert(src[j] == x);
                    }
                }
            } else {
                newpos.push(0);
            }
            proof {
                assert forall|x: int| 0 <= x < k + 1 implies (self.kept(x) <==> exists|j: int| 0 <= j < src.len() && #[trigger] src[j] == x) by {
                    if x == k && keep@[x] {
                        assert(src[src.len() - 1] == x);
                    }
                }
            }
            k = k + 1;
        }
        proof {
            assert forall|j: int| 0 <= j < src.len() implies (#[trigger] up@[j] matches Some(q) ==> q < j) by {
                let x = src[j];
                match self.up@[x] {
                    Some(q) => {
                        assert(up@[j] matches Some(jq) && jq < j);
                    },
                    None => {
                        assert(up@[j] is None);
                    },
                }
            }
            assert forall|j: int| 0 <= j < src.len() implies #[trigger] order@[j] < self.nodes@.len() by {
                assert(order@[j] == self.order@[src[j]]);
            }
            assert forall|j1: int, j2: int| 0 <= j1 < j2 < src.len() implies #[trigger] order@[j1] != #[trigger] order@[j2] by {
                assert(src[j1] < src[j2]);
                assert(self.order@[src[j1]] != self.order@[src[j2]]);
            }
        }
        self.order = order;
        self.up = up;
        proof {
            assert(self.wf_links());
            assert(self.filtered_from(&old_self, src));
            assert forall|k: int, j: int| 0 <= k < self.up@.len() && 0 <= j < self.up@.len() implies #[trigger] between_ok(self.up@, k, j) by {
                if let Some(jq) = self.up@[k] {
                    if jq < j < k {
                        let x = src[k];
                        let q = old_self.up@[x].unwrap() as int;
                        assert(src[jq as int] == q);
                        assert(src[jq as int] < src[j] < src[k]);
                        assert(between_ok(old_self.up@, x, src[j]));
                        lemma_desc_transfer(&old_self, self, src, j, jq as int);
                    }
                }
            }
        }
    }

    /// Every group of siblings is in order under `key`.
    pub open spec fn siblings_ordered(&self, key: SortBy) -> bool {
        forall|k1: int, k2: int|
            0 <= k1 < k2 < self.up_seq().len() && #[trigger] self.up_seq()[k1] == #[trigger] self.up_seq()[k2]
                ==> !before(&self.rows()[k2], &self.rows()[k1], key)
    }

    /// `self` is `old` with its rows reordered (`src` gives the old row of each
    /// new row), every row under the same parent, and siblings ordered by `key`.
    pub open spec fn sorted_from(&self, old: &Forest, src: Seq<int>, key: SortBy) -> bool {
        &&& self.node_seq() == old.node_seq()
        &&& src.len() == self.order_seq().len()
        &&& src.len() == self.up_seq().len()
        &&& src.len() == old.order_seq().len()
        &&& src.len() == old.up_seq().len()
        &&& forall|j: int| 0 <= j < src.len() ==> 0 <= #[trigger] src[j] < src.len()
        &&& forall|j1: int, j2: int| 0 <= j1 < j2 < src.len() ==> #[trigger] src[j1] != #[trigger] src[j2]
        &&& forall|j: int| 0 <= j < src.len() ==> self.order_seq()[j] == old.order_seq()[#[trigger] src[j]]
        &&& forall|j: int| 0 <= j < src.len() ==> match old.up_seq()[#[trigger] src[j]] {
            Some(q) => self.up_seq()[j] matches Some(jq) && 0 <= jq < src.len() && src[jq as int] == q,
            None => self.up_seq()[j] is None,
        }
        &&& forall|k1: int, k2: int|
            0 <= k1 < k2 < self.up_seq().len() && #[trigger] self.up_seq()[k1] == #[trigger] self.up_seq()[k2]
                ==> !before(&self.rows()[k2], &self.rows()[k1], key)
    }

    /// The row indices, stably sorted by `key`.
    fn sorted_rows(&self, key: SortBy) -> (perm: Vec<usize>)
        requires
            self.wf(),
        ensures
            perm@.len() == self.order_seq().len(),
            forall|t: int| 0 <= t < perm@.len() ==> #[trigger] perm@[t] < perm@.len(),
            forall|t1: int, t2: int| 0 <= t1 < t2 < perm@.len() ==> #[trigger] perm@[t1] != #[trigger] perm@[t2],
            forall|q: int| 0 <= q < perm@.len() ==> #[trigger] holds_row(perm@, q),
            forall|t1: int, t2: int|
                0 <= t1 < t2 < perm@.len() ==> !before(&self.rows()[#[trigger] perm@[t2] as int], &self.rows()[#[trigger] perm@[t1] as int], key),
    {
        let m = self.order.len();
        let mut perm: Vec<usize> = Vec::new();
        let mut i: usize = 0;
        while i < m
            invariant
                self.wf(),
                m == self.order@.len(),
                i <= m,
                perm@.len() == i,
                forall|t: int| 0 <= t < perm@.len() ==> #[trigger] perm@[t] < i,
                forall|t1: int, t2: int| 0 <= t1 < t2 < perm@.len() ==> #[trigger] perm@[t1] != #[trigger] perm@[t2],
                forall|q: int| 0 <= q < i ==> #[trigger] holds_row(perm@, q),
                forall|t1: int, t2: int|
                    0 <= t1 < t2 < perm@.len() ==> !before(&self.rows()[#[trigger] perm@[t2] as int], &self.rows()[#[trigger] perm@[t1] as int], key),
            decreases m - i,
        {
            let x = &self.nodes[self.order[i]];
            let mut p: usize = 0;
            while p < perm.len() && !orders_before(x, &self.nodes[self.order[perm[p]]], key)
                invariant
                    self.wf(),
                    m == self.order@.len(),
                    i < m,
                    perm@.len() == i,
                    p <= perm@.len(),
                    forall|t: int| 0 <= t < perm@.len() ==> #[trigger] perm@[t] < i,
                    *x == self.rows()[i as int],
                    forall|t: int| 0 <= t < p ==> !before(&self.rows()[i as int], &self.rows()[#[trigger] perm@[t] as int], key),
                decreases perm@.len() - p,
            {
                p = p + 1;
            }
            let ghost old_perm = perm@;
            perm.insert(p, i);
            proof {
                assert(perm@ == old_perm.insert(p as int, i));
                assert forall|q: int| 0 <= q < i + 1 implies #[trigger] holds_row(perm@, q) by {
                    if q == i {
                        assert(perm@[p as int] == q);
                    } else {
                        assert(holds_row(old_perm, q));
                        let t = choose|t: int| 0 <= t < old_perm.len() && #[trigger] old_perm[t] == q;
                        if t < p {
                            assert(perm@[t] == q);
                        } else {
                            assert(perm@[t + 1] == q);
                        }
                    }
                }
                assert forall|t1: int, t2: int| 0 <= t1 < t2 < perm@.len() implies #[trigger] perm@[t1] != #[trigger] perm@[t2] by {
                    if t1 < p && t2 > p {
                        assert(perm@[t2] == old_perm[t2 - 1]);
                    } else if t1 > p {
                        assert(perm@[t1] == old_perm[t1 - 1]);
                        assert(perm@[t2] == old_perm[t2 - 1]);
                    }
                }
                assert forall|t1: int, t2: int|
                    0 <= t1 < t2 < perm@.len() implies !before(&self.rows()[#[trigger] perm@[t2] as int], &self.rows()[#[trigger] perm@[t1] as int], key) by {
                    let xi = self.rows()[i as int];
                    if t2 == p {
                        assert(perm@[t1] == old_perm[t1]);
                    } else if t1 == p {
                        let y = self.rows()[old_perm[p as int] as int];
                        assert(before(&xi, &y, key));
                        assert(perm@[t2] == old_perm[t2 - 1]);
                        if t2 - 1 > p {
                            assert(!before(&self.rows()[old_perm[t2 - 1] as int], &y, key));
                        }
                    } else if t1 < p && t2 > p {
                        assert(perm@[t2] == old_perm[t2 - 1]);
                    } else if t1 > p {
                        assert(perm@[t1] == old_perm[t1 - 1]);
                        assert(perm@[t2] == old_perm[t2 - 1]);
                    }
                }
            }
            i = i + 1;
        }
        perm
    }

    /// Reorders siblings at every level by `key` (ties keep their order); the
    /// shape of the forest does not change.
    pub fn sort_by(&mut self, key: SortBy)
        requires
            old(self).wf(),
        ensures
            final(self).wf(),
            exists|src: Seq<int>| final(self).sorted_from(old(self), src, key),
    {
        let ghost old_self = *self;
        let m = self.order.len();
        let perm = self.sorted_rows(key);
        let mut inv: Vec<usize> = Vec::new();
        let mut t: usize = 0;
        while t < m
            invariant
                t <= m,
                inv@.len() == t,
                forall|x: int| 0 <= x < t ==> #[trigger] inv@[x] < m,
            decreases m - t,
        {
            inv.push(0);
            t = t + 1;
        }
        t = 0;
        while t < m
            invariant
                m == perm@.len(),
                t <= m,
                inv@.len() == m,
                forall|x: int| 0 <= x < m ==> #[trigger] inv@[x] < m,
                forall|x: int| 0 <= x < m ==> #[trigger] perm@[x] < m,
                forall|t1: int, t2: int| 0 <= t1 < t2 < m ==> #[trigger] perm@[t1] != #[trigger] perm@[t2],
                forall|x: int| 0 <= x < t ==> inv@[#[trigger] perm@[x] as int] == x,
            decreases m - t,
        {
            inv.set(perm[t], t);
            t = t + 1;
        }
        proof {
            assert forall|q: int| 0 <= q < m implies #[trigger] perm@[inv@[q] as int] == q by {
                assert(holds_row(perm@, q));
                let x = choose|x: int| 0 <= x < m && #[trigger] perm@[x] == q;
                assert(inv@[perm@[x] as int] == x);
            }
        }
        let mut links: Vec<Option<usize>> = Vec::new();
        t = 0;
        while t < m
            invariant
                self.wf(),
                old_self == *self,
                m == perm@.len(),
                m == self.up@.len(),
                t <= m,
                inv@.len() == m,
                links@.len() == t,
                forall|x: int| 0 <= x < m ==> #[trigger] inv@[x] < m,
                forall|x: int| 0 <= x < m ==> #[trigger] perm@[x] < m,
                forall|x: int| 0 <= x < t ==> match self.up@[#[trigger] perm@[x] as int] {
                    Some(q) => links@[x] == Some(inv@[q as int]),
                    None => links@[x] is None,
                },
            decreases m - t,
        {
            let link = match self.up[perm[t]] {
                Some(q) => Some(inv[q]),
                None => None,
            };
            links.push(link);
            t = t + 1;
        }
        proof {
            assert forall|x: int| 0 <= x < links@.len() implies (#[trigger] links@[x] matches Some(p) ==> p < links@.len()) by {
                assert(perm@[x] < m);
            }
            assert forall|x: int| 0 <= x < m implies reaches_root(links@, x, m as nat) by {
                self.lemma_sorted_links_reach(links@, perm@, inv@, x);
                lemma_reaches_root_mono(links@, x, (perm@[x] + 1) as nat, m as nat);
            }
        }
        let (ord2, up2) = layout(&links);
        let mut order: Vec<usize> = Vec::new();
        let ghost mut src: Seq<int> = Seq::empty();
        let mut k: usize = 0;
        while k < m
            invariant
                self.wf(),
                old_self == *self,
                m == perm@.len(),
                m == ord2@.len(),
                m == self.order@.len(),
                k <= m,
                order@.len() == k,
                src.len() == k,
                forall|x: int| 0 <= x < m ==> #[trigger] perm@[x] < m,
                forall|x: int| 0 <= x < m ==> #[trigger] ord2@[x] < m,
                forall|j: int| 0 <= j < k ==> #[trigger] src[j] == perm@[ord2@[j] as int] as int,
                forall|j: int| 0 <= j < k ==> #[trigger] order@[j] == self.order@[src[j]],
            decreases m - k,
        {
            order.push(self.order[perm[ord2[k]]]);
            proof {
                src = src.push(perm@[ord2@[k as int] as int] as int);
            }
            k = k + 1;
        }
        proof {
            assert forall|j1: int, j2: int| 0 <= j1 < j2 < m implies #[trigger] src[j1] != #[trigger] src[j2] by {
                assert(ord2@[j1] != ord2@[j2]);
                assert(perm@[ord2@[j1] as int] != perm@[ord2@[j2] as int]);
            }
            assert forall|j: int| 0 <= j < m implies match old_self.up@[#[trigger] src[j]] {
                Some(q) => up2@[j] matches Some(jq) && 0 <= jq < m && src[jq as int] == q,
                None => up2@[j] is None,
            } by {
                let x = ord2@[j] as int;
                assert(perm@[x] < m);
                match up2@[j] {
                    Some(jq) => {
                        assert(links@[x] == Some(ord2@[jq as int]));
                    },
                    None => {
                        assert(links@[x] is None);
                    },
                }
            }
            assert forall|j1: int, j2: int| 0 <= j1 < j2 < m implies #[trigger] order@[j1] != #[trigger] order@[j2] by {
                assert(src[j1] != src[j2]);
                assert(self.order@[src[j1]] != self.order@[src[j2]]);
            }
            assert forall|j: int| 0 <= j < m implies #[trigger] order@[j] < self.nodes@.len() by {
                assert(order@[j] == self.order@[src[j]]);
            }
        }
        self.order = order;
        self.up = up2;
        proof {
            assert forall|k1: int, k2: int|
                0 <= k1 < k2 < self.up@.len() && #[trigger] self.up@[k1] == #[trigger] self.up@[k2]
                    implies !before(&self.rows()[k2], &self.rows()[k1], key) by {
                let t1 = ord2@[k1] as int;
                let t2 = ord2@[k2] as int;
                assert(t1 < t2);
                assert(self.rows()[k1] == old_self.rows()[perm@[t1] as int]);
                assert(self.rows()[k2] == old_self.rows()[perm@[t2] as int]);
            }
            assert(self.sorted_from(&old_self, src, key));
        }
    }

    proof fn lemma_sorted_links_reach(&self, links: Seq<Option<usize>>, perm: Seq<usize>, inv: Seq<usize>, x: int)
        requires
            self.wf(),
            perm.len() == self.up_seq().len(),
            links.len() == perm.len(),
            inv.len() == perm.len(),
            0 <= x < perm.len(),
            forall|y: int| 0 <= y < perm.len() ==> #[trigger] perm[y] < perm.len(),
            forall|q: int| 0 <= q < perm.len() ==> #[trigger] perm[inv[q] as int] == q,
            forall|q: int| 0 <= q < perm.len() ==> #[trigger] inv[q] < perm.len(),
            forall|y: int| 0 <= y < perm.len() ==> match self.up_seq()[#[trigger] perm[y] as int] {
                Some(q) => links[y] == Some(inv[q as int]),
                None => links[y] is None,
            },
        ensures
            reaches_root(links, x, (perm[x] + 1) as nat),
        decreases perm[x],
    {
        assert(perm[x] < perm.len());
        match self.up_seq()[perm[x] as int] {
            Some(q) => {
                let y = inv[q as int] as int;
                assert(perm[y] == q);
                assert(q < perm[x]);
                self.lemma_sorted_links_reach(links, perm, inv, y);
                lemma_reaches_root_mono(links, y, (perm[y] + 1) as nat, perm[x] as nat);
            },
            None => {},
        }
    }

    /// The number of rows.
    pub fn len(&self) -> (r: usize)
        requires
            self.wf(),
        ensures
            r == self.rows().len(),
    {
        self.order.len()
    }

    /// The processes in row order.
    pub fn iter(&self) -> (r: Vec<&Process>)
        requires
            self.wf(),
        ensures
            r@.len() == self.rows().len(),
            forall|k: int| 0 <= k < r@.len() ==> *r@[k] == self.rows()[k],
    {
        let mut r: Vec<&Process> = Vec::new();
        let mut k: usize = 0;
        while k < self.order.len()
            invariant
                self.wf(),
                k <= self.order@.len(),
                r@.len() == k,
                forall|j: int| 0 <= j < k ==> *r@[j] == self.rows()[j],
            decreases self.order@.len() - k,
        {
            r.push(&self.nodes[self.order[k]]);
            k = k + 1;
        }
        r
    }
}

/// Index `x` occurs in `t`.
pub open spec fn holds_index(t: Seq<int>, x: int) -> bool {
    exists|j: int| 0 <= j < t.len() && t[j] == x
}

/// Row `q` occurs in `s`.
pub open spec fn holds_row(s: Seq<usize>, q: int) -> bool {
    exists|t: int| 0 <= t < s.len() && s[t] == q
}

fn orders_before(a: &Process, b: &Process, key: SortBy) -> (r: bool)
    ensures
        r == before(a, b, key),
{
    match a.compare(b, key) {
        std::cmp::Ordering::Less => true,
        _ => false,
    }
}

proof fn lemma_reaches_root_mono(links: Seq<Option<usize>>, t: int, f: nat, g: nat)
    requires
        reaches_root(links, t, f),
        f <= g,
    ensures
        reaches_root(links, t, g),
    decreases f,
{
    if let Some(p) = links[t] {
        lemma_reaches_root_mono(links, p as int, (f - 1) as nat, (g - 1) as nat);
    }
}

fn find_index(nodes: &Vec<Process>, pid: u32) -> (r: Option<usize>)
    ensures
        match r {
            Some(j) => find_pid(nodes@, pid) == Some(j as int),
            None => find_pid(nodes@, pid) is None,
        },
{
    let mut j: usize = 0;
    while j < nodes.len()
        invariant
            j <= nodes@.len(),
            find_pid(nodes@.subrange(0, j as int), pid) is None,
        decreases nodes@.len() - j,
    {
        proof {
            assert(nodes@.subrange(0, j + 1).drop_last() =~= nodes@.subrange(0, j as int));
        }
        if nodes[j].pid == pid {
            proof {
                lemma_find_pid_prefix(nodes@, j as int + 1, pid);
            }
            return Some(j);
        }
        j = j + 1;
    }
    proof {
        assert(nodes@.subrange(0, j as int) =~= nodes@);
    }
    None
}

proof fn lemma_find_pid_prefix(s: Seq<Process>, k: int, pid: u32)
    requires
        0 <= k <= s.len(),
        find_pid(s.subrange(0, k), pid) is Some,
    ensures
        find_pid(s, pid) == find_pid(s.subrange(0, k), pid),
    decreases s.len() - k,
{
    if k < s.len() {
        assert(s.subrange(0, k + 1).drop_last() =~= s.subrange(0, k));
        lemma_find_pid_prefix(s, k + 1, pid);
    } else {
        assert(s.subrange(0, k) =~= s);
    }
}

proof fn lemma_find_pid_bounds(s: Seq<Process>, pid: u32)
    ensures
        find_pid(s, pid) matches Some(j) ==> 0 <= j < s.len() && s[j].pid == pid,
    decreases s.len(),
{
    if s.len() > 0 {
        lemma_find_pid_bounds(s.drop_last(), pid);
    }
}

pub(crate) fn reversed(v: Vec<Process>) -> (r: Vec<Process>)
    ensures
        r@.len() == v@.len(),
        forall|k: int| 0 <= k < r@.len() ==> #[trigger] r@[k] == v@[v@.len() - 1 - k],
{
    let ghost orig = v@;
    let mut v = v;
    let mut r: Vec<Process> = Vec::new();
    while v.len() > 0
        invariant
            v@.len() <= orig.len(),
            v@ == orig.subrange(0, v@.len() as int),
            r@.len() == orig.len() - v@.len(),
            forall|k: int| 0 <= k < r@.len() ==> #[trigger] r@[k] == orig[orig.len() - 1 - k],
        decreases v@.len(),
    {
        let x = v.pop().unwrap();
        r.push(x);
        proof {
            assert(v@ =~= orig.subrange(0, v@.len() as int));
        }
    }
    r
}

fn merge_records(records: Vec<Process>) -> (r: Vec<Process>)
    ensures
        r@ == merged(records@),
{
    let ghost orig = records@;
    let n = records.len();
    let mut rest = reversed(records);
    let mut nodes: Vec<Process> = Vec::new();
    let mut i: usize = 0;
    while i < n
        invariant
            n == orig.len(),
            i <= n,
            rest@.len() == n - i,
            forall|k: int| 0 <= k < rest@.len() ==> #[trigger] rest@[k] == orig[n - 1 - k],
            nodes@ == merged(orig.subrange(0, i as int)),
        decreases n - i,
    {
        let rec = rest.pop().unwrap();
        proof {
            assert(rec == orig[i as int]);
            assert(orig.subrange(0, i + 1).drop_last() =~= orig.subrange(0, i as int));
        }
        match find_index(&nodes, rec.pid) {
            Some(j) => {
                proof {
                    lemma_find_pid_bounds(nodes@, rec.pid);
                }
                let mut p = nodes.remove(j);
                p.accumulate_from(&rec);
                nodes.insert(j, p);
                proof {
                    assert(nodes@ =~= merged(orig.subrange(0, i + 1)));
                }
            },
            None => {
                nodes.push(rec);
            },
        }
        i = i + 1;
    }
    proof {
        assert(orig.subrange(0, n as int) =~= orig);
    }
    nodes
}

fn links_of(nodes: &Vec<Process>) -> (r: Vec<Option<usize>>)
    ensures
        r@ == parent_links(nodes@),
        links_ok(r@),
{
    let mut r: Vec<Option<usize>> = Vec::new();
    let mut t: usize = 0;
    while t < nodes.len()
        invariant
            t <= nodes@.len(),
            r@ == parent_links(nodes@).subrange(0, t as int),
        decreases nodes@.len() - t,
    {
        let link = match nodes[t].parent {
            Some(pp) => find_index(nodes, pp),
            None => None,
        };
        r.push(link);
        t = t + 1;
        proof {
            assert(r@ =~= parent_links(nodes@).subrange(0, t as int));
        }
    }
    proof {
        assert(r@ =~= parent_links(nodes@));
        assert forall|k: int| 0 <= k < r@.len() implies (#[trigger] r@[k] matches Some(p) ==> p < r@.len()) by {
            if let Some(pp) = nodes@[k].parent {
                lemma_find_pid_bounds(nodes@, pp);
            }
        }
    }
    r
}

proof fn lemma_find_pid_none(s: Seq<Process>, pid: u32)
    requires
        find_pid(s, pid) is None,
    ensures
        forall|i: int| 0 <= i < s.len() ==> #[trigger] s[i].pid != pid,
    decreases s.len(),
{
    if s.len() > 0 {
        lemma_find_pid_none(s.drop_last(), pid);
        assert forall|i: int| 0 <= i < s.len() implies #[trigger] s[i].pid != pid by {
            if i < s.len() - 1 {
                assert(s[i] == s.drop_last()[i]);
            }
        }
    }
}

proof fn lemma_merged_unique(s: Seq<Process>)
    requires
        unique_pids(s),
    ensures
        merged(s) == s,
    decreases s.len(),
{
    if s.len() > 0 {
        let prev = s.drop_last();
        assert(unique_pids(prev)) by {
            assert forall|i: int, j: int| 0 <= i < j < prev.len() implies #[trigger] prev[i].pid != #[trigger] prev[j].pid by {
                assert(prev[i] == s[i] && prev[j] == s[j]);
            }
        }
        lemma_merged_unique(prev);
        lemma_find_pid_bounds(prev, s.last().pid);
        if let Some(j) = find_pid(prev, s.last().pid) {
            assert(s[j].pid == s[s.len() - 1].pid);
        }
        assert(prev.push(s.last()) =~= s);
    }
}

pub(crate) proof fn lemma_distinct_covers(s: Seq<usize>, n: int)
    requires
        s.len() == n,
        forall|k: int| 0 <= k < n ==> #[trigger] s[k] < n,
        forall|k1: int, k2: int| 0 <= k1 < k2 < n ==> #[trigger] s[k1] != #[trigger] s[k2],
    ensures
        forall|x: int| 0 <= x < n ==> #[trigger] holds_row(s, x),
{
    let a = vstd::set_lib::set_int_range(0, n);
    vstd::set_lib::lemma_int_range(0, n);
    let f = |k: int| s[k] as int;
    assert(vstd::relations::injective_on(f, a)) by {
        assert forall|k1: int, k2: int| a.contains(k1) && a.contains(k2) && #[trigger] f(k1) == #[trigger] f(k2) implies k1 == k2 by {
            if k1 < k2 {
                assert(s[k1] != s[k2]);
            } else if k2 < k1 {
                assert(s[k2] != s[k1]);
            }
        }
    }
    let img = a.map(f);
    vstd::set_lib::lemma_map_size(a, img, f);
    assert forall|x: int| 0 <= x < n implies #[trigger] holds_row(s, x) by {
        if !holds_row(s, x) {
            assert(img.subset_of(a.remove(x))) by {
                assert forall|y: int| img.contains(y) implies a.remove(x).contains(y) by {
                    let k = choose|k: int| a.contains(k) && f(k) == y;
                    assert(s[k] < n);
                    if y == x {
                        assert(0 <= k < s.len() && s[k] == x);
                    }
                }
            }
            vstd::set_lib::lemma_len_subset(img, a.remove(x));
        }
    }
}

/// Building a forest from records with distinct ids puts every record in
/// exactly one row. Each record hangs directly under the record that its
/// parent id names; a record whose chain of parents ends (runs into no circle)
/// is a root exactly where no record has its parent id.
pub proof fn lemma_build_places_each_record_once(records: Seq<Process>, f: Forest)
    requires
        unique_pids(records),
        f.built_from(records),
    ensures
        f.rows().len() == records.len(),
        forall|i: int| 0 <= i < records.len() ==> #[trigger] f.has_row(records[i]),
        forall|k1: int, k2: int| 0 <= k1 < k2 < f.rows().len() ==> #[trigger] f.rows()[k1].pid != #[trigger] f.rows()[k2].pid,
        forall|k: int| 0 <= k < f.rows().len() ==> match #[trigger] f.up_seq()[k] {
            Some(q) => 0 <= q < k && f.rows()[k].parent == Some(f.rows()[q as int].pid),
            None => reaches_root(parent_links(records), f.order_seq()[k] as int, records.len() as nat) ==> (
            f.rows()[k].parent matches Some(pp) ==> forall|i: int| 0 <= i < records.len() ==> #[trigger] records[i].pid != pp),
        },
{
    lemma_merged_unique(records);
    let n = records.len() as int;
    let order = f.order_seq();
    let links = parent_links(records);
    lemma_distinct_covers(order, n);
    assert forall|i: int| 0 <= i < records.len() implies #[trigger] f.has_row(records[i]) by {
        assert(holds_row(order, i));
        let k = choose|k: int| 0 <= k < order.len() && order[k] == i;
        assert(f.rows()[k] == records[i]);
    }
    assert forall|k1: int, k2: int| 0 <= k1 < k2 < f.rows().len() implies #[trigger] f.rows()[k1].pid != #[trigger] f.rows()[k2].pid by {
        let a = order[k1] as int;
        let b = order[k2] as int;
        assert(a != b);
        if a < b {
            assert(records[a].pid != records[b].pid);
        } else {
            assert(records[b].pid != records[a].pid);
        }
    }
    assert forall|k: int| 0 <= k < f.rows().len() implies match #[trigger] f.up_seq()[k] {
        Some(q) => 0 <= q < k && f.rows()[k].parent == Some(f.rows()[q as int].pid),
        None => reaches_root(parent_links(records), f.order_seq()[k] as int, records.len() as nat) ==> (
        f.rows()[k].parent matches Some(pp) ==> forall|i: int| 0 <= i < records.len() ==> #[trigger] records[i].pid != pp),
    } by {
        let t = order[k] as int;
        assert(f.rows()[k] == records[t]);
        match f.up_seq()[k] {
            Some(q) => {
                assert(q < k);
                assert(links[t] == Some(order[q as int]));
                assert(f.rows()[q as int] == records[order[q as int] as int]);
                match records[t].parent {
                    Some(pp) => {
                        lemma_find_pid_bounds(records, pp);
                        match find_pid(records, pp) {
                            Some(j) => {
                                assert(j == order[q as int] as int);
                                assert(records[j].pid == pp);
                            },
                            None => {
                                assert(links[t] is None);
                            },
                        }
                    },
                    None => {
                        assert(links[t] is None);
                    },
                }
            },
            None => if reaches_root(links, t, records.len() as nat) {
                assert(links[t] is None);
                if let Some(pp) = records[t].parent {
                    lemma_find_pid_bounds(records, pp);
                    if let Some(j) = find_pid(records, pp) {
                        assert(links[t] is Some);
                    }
                    lemma_find_pid_none(records, pp);
                }
            },
        }
    }
}

proof fn lemma_desc_transfer(f: &Forest, g: &Forest, src: Seq<int>, j1: int, j2: int)
    requires
        f.wf(),
        g.wf_links(),
        g.filtered_from(f, src),
        0 <= j1 < src.len(),
        0 <= j2 < src.len(),
        f.is_desc(src[j1], src[j2]),
    ensures
        g.is_desc(j1, j2),
    decreases j1,
{
    if src[j1] == src[j2] {
        if j1 < j2 {
            assert(src[j1] < src[j2]);
        } else if j2 < j1 {
            assert(src[j2] < src[j1]);
        }
    } else {
        let x = src[j1];
        let q = f.up_seq()[x].unwrap() as int;
        let jq = g.up_seq()[j1].unwrap() as int;
        assert(src[jq] == q);
        lemma_desc_transfer(f, g, src, jq, j2);
    }
}

proof fn lemma_increasing_covering_is_identity(t: Seq<int>, m: int)
    requires
        0 <= m,
        forall|j: int| 0 <= j < t.len() ==> 0 <= #[trigger] t[j] < m,
        forall|j1: int, j2: int| 0 <= j1 < j2 < t.len() ==> #[trigger] t[j1] < #[trigger] t[j2],
        forall|x: int| 0 <= x < m ==> #[trigger] holds_index(t, x),
    ensures
        t.len() == m,
        forall|j: int| 0 <= j < m ==> #[trigger] t[j] == j,
{
    assert forall|j: int| 0 <= j < t.len() implies #[trigger] t[j] >= j by {
        lemma_increasing_lower(t, j);
    }
    if t.len() > m {
        assert(t[m] >= m);
    }
    assert forall|j: int| 0 <= j < m implies #[trigger] t[j] == j by {
        lemma_increasing_exact(t, m, j);
    }
    if m > 0 {
        lemma_increasing_exact(t, m, m - 1);
    }
}

proof fn lemma_increasing_lower(t: Seq<int>, j: int)
    requires
        0 <= j < t.len(),
        forall|j: int| 0 <= j < t.len() ==> 0 <= #[trigger] t[j],
        forall|j1: int, j2: int| 0 <= j1 < j2 < t.len() ==> #[trigger] t[j1] < #[trigger] t[j2],
    ensures
        t[j] >= j,
    decreases j,
{
    if j > 0 {
        lemma_increasing_lower(t, j - 1);
        assert(t[j - 1] < t[j]);
    }
}

proof fn lemma_increasing_exact(t: Seq<int>, m: int, j: int)
    requires
        0 <= j < m,
        t.len() <= m,
        forall|j: int| 0 <= j < t.len() ==> #[trigger] t[j] >= j,
        forall|j1: int, j2: int| 0 <= j1 < j2 < t.len() ==> #[trigger] t[j1] < #[trigger] t[j2],
        forall|x: int| 0 <= x < m ==> #[trigger] holds_index(t, x),
    ensures
        j < t.len(),
        t[j] == j,
    decreases j,
{
    if j > 0 {
        lemma_increasing_exact(t, m, j - 1);
    }
    assert(holds_index(t, j));
    let i = choose|i: int| 0 <= i < t.len() && #[trigger] t[i] == j;
    if i < j {
        lemma_increasing_exact(t, m, i);
    }
    if i > j {
        assert(t[j] < t[i]);
    }
}

/// Filtering a forest that is already filtered changes nothing: every row
/// stays, in place and under the same parent.
pub proof fn lemma_filter_idempotent(f: Forest, g: Forest, h: Forest, s1: Seq<int>, s2: Seq<int>)
    requires
        f.wf(),
        g.wf(),
        h.wf(),
        g.filtered_from(&f, s1),
        h.filtered_from(&g, s2),
    ensures
        h.node_seq() == g.node_seq(),
        h.order_seq() == g.order_seq(),
        h.up_seq() == g.up_seq(),
        h.rows() == g.rows(),
{
    let m = g.order_seq().len() as int;
    assert forall|j: int| 0 <= j < m implies g.kept(j) by {
        let x = s1[j];
        assert(exists|jj: int| 0 <= jj < s1.len() && #[trigger] s1[jj] == x);
        assert(f.kept(x));
        assert(g.rows()[j] == f.rows()[x]);
        if f.matched_above(x) {
            let a = choose|a: int| 0 <= a < f.rows().len() && #[trigger] f.is_desc(x, a) && f.matched(a);
            assert(f.is_desc(a, a));
            assert(f.kept(a));
            let ja = choose|ja: int| 0 <= ja < s1.len() && #[trigger] s1[ja] == a;
            lemma_desc_transfer(&f, &g, s1, j, ja);
            assert(g.rows()[ja] == f.rows()[a]);
            assert(g.is_desc(j, ja) && g.matched(ja));
        } else {
            let d = choose|d: int| 0 <= d < f.rows().len() && #[trigger] f.is_desc(d, x) && f.matched(d);
            assert(f.is_desc(d, d));
            assert(f.kept(d));
            let jd = choose|jd: int| 0 <= jd < s1.len() && #[trigger] s1[jd] == d;
            lemma_desc_transfer(&f, &g, s1, jd, j);
            assert(g.rows()[jd] == f.rows()[d]);
            assert(g.is_desc(jd, j) && g.matched(jd));
        }
    }
    assert forall|x: int| 0 <= x < m implies #[trigger] holds_index(s2, x) by {
        assert(g.kept(x));
    }
    lemma_increasing_covering_is_identity(s2, m);
    assert(h.order_seq() =~= g.order_seq()) by {
        assert forall|j: int| 0 <= j < m implies h.order_seq()[j] == g.order_seq()[j] by {
            assert(s2[j] == j);
        }
    }
    assert(h.up_seq() =~= g.up_seq()) by {
        assert forall|j: int| 0 <= j < m implies h.up_seq()[j] == g.up_seq()[j] by {
            assert(s2[j] == j);
            if let Some(q) = g.up_seq()[j] {
                let jq = h.up_seq()[j].unwrap() as int;
                assert(s2[jq] == q);
                assert(s2[q as int] == q);
                if jq != q {
                    if jq < q {
                        assert(s2[jq] < s2[q as int]);
                    } else {
                        assert(s2[q as int] < s2[jq]);
                    }
                }
            }
        }
    }
    assert(h.rows() =~= g.rows());
}

/// Filtering keeps every visible row, every ancestor of it and every row of
/// its subtree.
pub proof fn lemma_filter_keeps_context(f: Forest, g: Forest, src: Seq<int>, d: int)
    requires
        f.wf(),
        g.filtered_from(&f, src),
        0 <= d < f.rows().len(),
        f.matched(d),
    ensures
        holds_index(src, d),
        forall|a: int| 0 <= a < f.rows().len() && #[trigger] f.is_desc(d, a) ==> holds_index(src, a),
        forall|k: int| 0 <= k < f.rows().len() && #[trigger] f.is_desc(k, d) ==> holds_index(src, k),
{
    assert(f.is_desc(d, d));
    assert(f.kept(d));
    assert forall|a: int| 0 <= a < f.rows().len() && #[trigger] f.is_desc(d, a) implies holds_index(src, a) by {
        assert(f.matched_below(a));
        assert(f.kept(a));
        let j = choose|j: int| 0 <= j < src.len() && #[trigger] src[j] == a;
    }
    assert forall|k: int| 0 <= k < f.rows().len() && #[trigger] f.is_desc(k, d) implies holds_index(src, k) by {
        assert(f.matched_above(k));
        assert(f.kept(k));
        let j = choose|j: int| 0 <= j < src.len() && #[trigger] src[j] == k;
    }
}

/// After sorting by pid, the rows (which `render_forest_prefixes` lists in
/// this order) have non-decreasing pids within each group of siblings.
pub proof fn lemma_sorted_by_pid_siblings(f: Forest, g: Forest, src: Seq<int>)
    requires
        g.sorted_from(&f, src, SortBy::Pid),
    ensures
        forall|k1: int, k2: int|
            0 <= k1 < k2 < g.up_seq().len() && #[trigger] g.up_seq()[k1] == #[trigger] g.up_seq()[k2]
                ==> g.rows()[k1].pid <= g.rows()[k2].pid,
{
}

/// Filtering keeps siblings in the order they had: a forest whose siblings are
/// ordered under `key` stays so after filtering.
pub proof fn lemma_filter_keeps_sibling_order(f: Forest, g: Forest, src: Seq<int>, key: SortBy)
    requires
        f.wf(),
        g.filtered_from(&f, src),
        f.siblings_ordered(key),
    ensures
        g.siblings_ordered(key),
{
    assert forall|k1: int, k2: int|
        0 <= k1 < k2 < g.up_seq().len() && #[trigger] g.up_seq()[k1] == #[trigger] g.up_seq()[k2]
            implies !before(&g.rows()[k2], &g.rows()[k1], key) by {
        let x1 = src[k1];
        let x2 = src[k2];
        assert(x1 < x2);
        assert(g.rows()[k1] == f.rows()[x1]);
        assert(g.rows()[k2] == f.rows()[x2]);
        match f.up_seq()[x1] {
            Some(q1) => {
                let q2 = f.up_seq()[x2].unwrap();
                assert(src[g.up_seq()[k1].unwrap() as int] == q1);
                assert(src[g.up_seq()[k2].unwrap() as int] == q2);
                assert(f.up_seq()[x1] == f.up_seq()[x2]);
            },
            None => {
                assert(f.up_seq()[x2] is None);
            },
        }
    }
}

/// Sorting keeps every row: each old row is some new row.
pub proof fn lemma_sort_keeps_rows(f: Forest, g: Forest, src: Seq<int>, key: SortBy, k: int)
    requires
        f.wf(),
        g.sorted_from(&f, src, key),
        0 <= k < f.rows().len(),
    ensures
        exists|j: int| 0 <= j < g.rows().len() && #[trigger] g.rows()[j] == f.rows()[k],
{
    let n = src.len() as int;
    let s = Seq::new(n as nat, |j: int| src[j] as usize);
    assert forall|j: int| 0 <= j < n implies #[trigger] s[j] < n by {}
    assert forall|j1: int, j2: int| 0 <= j1 < j2 < n implies #[trigger] s[j1] != #[trigger] s[j2] by {
        assert(src[j1] != src[j2]);
    }
    lemma_distinct_covers(s, n);
    assert(holds_row(s, k));
    let j = choose|j: int| 0 <= j < s.len() && s[j] == k;
    assert(src[j] == k);
    assert(g.rows()[j] == f.rows()[k]);
}

} // verus!
