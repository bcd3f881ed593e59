use vstd::prelude::*;

verus! {

/// Following parent links from `t` ends at a node without a parent within `fuel` steps.
pub open spec fn reaches_root(links: Seq<Option<usize>>, t: int, fuel: nat) -> bool
    decreases fuel,
{
    match links[t] {
        None => true,
        Some(p) => fuel > 0 && reaches_root(links, p as int, (fuel - 1) as nat),
    }
}

/// No chain of parent links runs in a circle.
pub open spec fn acyclic(links: Seq<Option<usize>>) -> bool {
    forall|t: int| 0 <= t < links.len() ==> reaches_root(links, t, links.len() as nat)
}

/// Every parent link points at a node.
pub open spec fn links_ok(links: Seq<Option<usize>>) -> bool {
    forall|t: int| 0 <= t < links.len() ==> (#[trigger] links[t] matches Some(p) ==> p < links.len())
}

/// Row `d` lies in the subtree of row `a` (or is `a`), where `up` gives each
/// row's parent row.
pub open spec fn desc_up(up: Seq<Option<usize>>, d: int, a: int) -> bool
    decreases d,
{
    d == a || (0 <= d < up.len() && match up[d] {
        Some(q) => q < d && desc_up(up, q as int, a),
        None => false,
    })
}

/// Every row between a row and its parent lies in the parent's subtree.
pub open spec fn between_ok(up: Seq<Option<usize>>, k: int, j: int) -> bool {
    match up[k] {
        Some(q) => q < j < k ==> desc_up(up, j, q as int),
        None => true,
    }
}

/// The rows are in depth-first pre-order: each subtree is one block of rows.
pub open spec fn preorder(up: Seq<Option<usize>>) -> bool {
    forall|k: int, j: int| 0 <= k < up.len() && 0 <= j < up.len() ==> #[trigger] between_ok(up, k, j)
}

proof fn lemma_desc_up_extend(s: Seq<Option<usize>>, t: Seq<Option<usize>>, d: int, a: int)
    requires
        s.len() <= t.len(),
        t.subrange(0, s.len() as int) == s,
        d < s.len(),
        desc_up(s, d, a),
    ensures
        desc_up(t, d, a),
    decreases d,
{
    if d != a {
        assert(s[d] == t.subrange(0, s.len() as int)[d]);
        let q = s[d].unwrap() as int;
        lemma_desc_up_extend(s, t, q, a);
    }
}

proof fn lemma_desc_up_trans(up: Seq<Option<usize>>, d: int, c: int, a: int)
    requires
        desc_up(up, d, c),
        desc_up(up, c, a),
    ensures
        desc_up(up, d, a),
    decreases d,
{
    if d != c {
        let q = up[d].unwrap() as int;
        lemma_desc_up_trans(up, q, c, a);
    }
}

pub open spec fn count_false(v: Seq<bool>) -> nat
    decreases v.len(),
{
    if v.len() == 0 {
        0
    } else {
        count_false(v.drop_last()) + if v.last() {
            0nat
        } else {
            1nat
        }
    }
}

proof fn lemma_count_false_mono(v: Seq<bool>, w: Seq<bool>)
    requires
        v.len() == w.len(),
        forall|k: int| 0 <= k < v.len() && v[k] ==> w[k],
    ensures
        count_false(w) <= count_false(v),
    decreases v.len(),
{
    if v.len() > 0 {
        lemma_count_false_mono(v.drop_last(), w.drop_last());
    }
}

proof fn lemma_count_false_set(v: Seq<bool>, t: int)
    requires
        0 <= t < v.len(),
        !v[t],
    ensures
        count_false(v.update(t, true)) + 1 == count_false(v),
    decreases v.len(),
{
    let w = v.update(t, true);
    if t == v.len() - 1 {
        assert(w.drop_last() =~= v.drop_last());
    } else {
        assert(w.drop_last() =~= v.drop_last().update(t, true));
        lemma_count_false_set(v.drop_last(), t);
    }
}

/// A depth-first walk in progress: the rows laid out so far (`order` holds the
/// node of each row, `up` the row of its parent), and the nodes already placed.
struct Walk {
    order: Vec<usize>,
    up: Vec<Option<usize>>,
    visited: Vec<bool>,
    pos: Ghost<Seq<int>>,
}

impl Walk {
    spec fn inv(&self, links: Seq<Option<usize>>) -> bool {
        let m = links.len();
        &&& links_ok(links)
        &&& self.visited@.len() == m
        &&& self.pos@.len() == m
        &&& self.order@.len() == self.up@.len()
        &&& forall|k: int|
            0 <= k < self.order@.len() ==> {
                &&& (#[trigger] self.order@[k]) < m
                &&& self.visited@[self.order@[k] as int]
                &&& self.pos@[self.order@[k] as int] == k
            }
        &&& forall|x: int|
            0 <= x < m && #[trigger] self.visited@[x] ==> 0 <= self.pos@[x] < self.order@.len()
                && self.order@[self.pos@[x]] == x
        &&& forall|k: int|
            0 <= k < self.up@.len() ==> (#[trigger] self.up@[k] matches Some(q) ==> q < k
                && links[self.order@[k] as int] == Some(self.order@[q as int]))
        &&& forall|k1: int, k2: int|
            0 <= k1 < k2 < self.up@.len() && #[trigger] self.up@[k1] is Some && self.up@[k1]
                == #[trigger] self.up@[k2] ==> self.order@[k1] < self.order@[k2]
        &&& preorder(self.up@)
    }

    /// `x` is placed and so are all nodes whose parent link names it.
    spec fn finished(&self, links: Seq<Option<usize>>, x: int) -> bool {
        forall|y: int| 0 <= y < links.len() && links[y] == Some(x as usize) ==> #[trigger] self.visited@[y]
    }

    /// Places node `t` as the next row, under row `parent`, then its children.
    fn emit(&mut self, links: &Vec<Option<usize>>, t: usize, parent: Option<usize>, fuel: Ghost<nat>)
        requires
            count_false(old(self).visited@) <= fuel@,
            old(self).inv(links@),
            t < links@.len(),
            !old(self).visited@[t as int],
            parent matches Some(q) ==> q < old(self).order@.len() && links@[t as int] == Some(
                old(self).order@[q as int],
            ),
            parent is Some ==> forall|k: int|
                0 <= k < old(self).up@.len() ==> #[trigger] old(self).up@[k] == parent ==> old(
                    self,
                ).order@[k] < t,
            parent matches Some(q) ==> forall|j: int|
                q < j < old(self).up@.len() ==> #[trigger] desc_up(old(self).up@, j, q as int),
        ensures
            forall|j: int|
                old(self).up@.len() < j < final(self).up@.len() ==> #[trigger] desc_up(
                    final(self).up@,
                    j,
                    old(self).up@.len() as int,
                ),
            final(self).inv(links@),
            final(self).order@.len() > old(self).order@.len(),
            final(self).order@.subrange(0, old(self).order@.len() as int) == old(self).order@,
            final(self).up@.subrange(0, old(self).up@.len() as int) == old(self).up@,
            final(self).order@[old(self).order@.len() as int] == t,
            final(self).up@[old(self).up@.len() as int] == parent,
            forall|k: int|
                old(self).up@.len() < k < final(self).up@.len() ==> (#[trigger] final(self).up@[k] matches Some(q)
                    && old(self).up@.len() <= q < k),
            forall|x: int| 0 <= x < links@.len() && old(self).visited@[x] ==> #[trigger] final(self).visited@[x],
            forall|x: int|
                0 <= x < links@.len() && #[trigger] final(self).visited@[x] && !old(self).visited@[x]
                    ==> final(self).finished(links@, x),
            forall|k: int|
                old(self).order@.len() <= k < final(self).order@.len() ==> !old(self).visited@[
                    #[trigger] final(self).order@[k] as int],
        decreases fuel@,
    {
        let m = links.len();
        let me = self.order.len();
        let ghost v0 = self.visited@;
        let ghost len0 = self.order@.len();
        let ghost order0 = self.order@;
        let ghost up0 = self.up@;
        self.visited.set(t, true);
        self.order.push(t);
        self.up.push(parent);
        self.pos = Ghost(self.pos@.update(t as int, me as int));
        proof {
            lemma_count_false_set(v0, t as int);
            assert(self.up@.subrange(0, me as int) =~= up0);
            assert forall|k: int, j: int| 0 <= k < self.up@.len() && 0 <= j < self.up@.len() implies #[trigger] between_ok(self.up@, k, j) by {
                if let Some(q) = self.up@[k] {
                    if q < j < k {
                        if k == me {
                            assert(desc_up(up0, j, q as int));
                        } else {
                            assert(self.up@[k] == up0[k]);
                            assert(between_ok(up0, k, j));
                        }
                        lemma_desc_up_extend(up0, self.up@, j, q as int);
                    }
                }
            }
            assert forall|k1: int, k2: int|
                0 <= k1 < k2 < self.up@.len() && #[trigger] self.up@[k1] is Some && self.up@[k1]
                    == #[trigger] self.up@[k2] implies self.order@[k1] < self.order@[k2] by {
                if k2 == me {
                    assert(up0[k1] == parent);
                }
            }
        }
        let mut j: usize = 0;
        while j < m
            invariant
                m == links@.len(),
                self.inv(links@),
                me == len0,
                me < self.order@.len(),
                self.order@.subrange(0, me as int) == order0,
                self.up@.subrange(0, me as int) == up0,
                self.order@[me as int] == t,
                self.up@[me as int] == parent,
                forall|k: int|
                    me < k < self.up@.len() ==> (#[trigger] self.up@[k] matches Some(q) && me <= q < k),
                forall|k: int|
                    me < k < self.up@.len() && #[trigger] self.up@[k] == Some(me) ==> self.order@[k] < j,
                v0.len() == m,
                forall|x: int| 0 <= x < m && v0[x] ==> #[trigger] self.visited@[x],
                self.visited@[t as int],
                forall|x: int|
                    0 <= x < m && #[trigger] self.visited@[x] && !v0[x] && x != t ==> self.finished(
                        links@,
                        x,
                    ),
                forall|y: int| 0 <= y < j && links@[y] == Some(t) ==> #[trigger] self.visited@[y],
                count_false(self.visited@) < count_false(v0),
                count_false(v0) <= fuel@,
                forall|x: int| me < x < self.up@.len() ==> #[trigger] desc_up(self.up@, x, me as int),
                forall|k: int| me <= k < self.order@.len() ==> !v0[#[trigger] self.order@[k] as int],
            decreases m - j,
        {
            if links[j] == Some(t) && !self.visited[j] {
                let ghost before = self.visited@;
                let ghost ulen = self.up@.len();
                proof {
                    assert(self.order@[me as int] == t);
                    assert forall|k: int|
                        0 <= k < self.up@.len() && #[trigger] self.up@[k] == Some(me) implies self.order@[k] < j by {
                        if k < me {
                            assert(self.up@[k] == up0[k]);
                        }
                    }
                }
                self.emit(links, j, Some(me), Ghost((fuel@ - 1) as nat));
                proof {
                    lemma_count_false_mono(before, self.visited@);
                    assert forall|k: int|
                        me < k < self.up@.len() && #[trigger] self.up@[k] == Some(me) implies self.order@[k] < j + 1 by {
                        if k < ulen {
                            assert(self.up@[k] == self.up@.subrange(0, ulen as int)[k]);
                            assert(self.order@[k] == self.order@.subrange(0, ulen as int)[k]);
                        }
                    }
                    assert(self.order@.subrange(0, me as int) =~= self.order@.subrange(0, ulen as int).subrange(0, me as int));
                    assert(self.up@.subrange(0, me as int) =~= self.up@.subrange(0, ulen as int).subrange(0, me as int));
                    assert(self.order@[me as int] == self.order@.subrange(0, ulen as int)[me as int]);
                    assert(self.up@[me as int] == self.up@.subrange(0, ulen as int)[me as int]);
                    assert forall|k: int|
                        me < k < self.up@.len() implies (#[trigger] self.up@[k] matches Some(q) && me <= q < k) by {
                        if k < ulen {
                            assert(self.up@[k] == self.up@.subrange(0, ulen as int)[k]);
                        }
                    }
                    assert forall|k: int| me <= k < self.order@.len() implies !v0[#[trigger] self.order@[k] as int] by {
                        if k < ulen {
                            assert(self.order@[k] == self.order@.subrange(0, ulen as int)[k]);
                        } else {
                            assert(!before[self.order@[k] as int]);
                        }
                    }
                    assert forall|x: int| me < x < self.up@.len() implies #[trigger] desc_up(self.up@, x, me as int) by {
                        assert(self.up@[ulen as int] == Some(me));
                        assert(desc_up(self.up@, me as int, me as int));
                        assert(desc_up(self.up@, ulen as int, me as int));
                        if x < ulen {
                            lemma_desc_up_extend(self.up@.subrange(0, ulen as int), self.up@, x, me as int);
                        } else if x > ulen {
                            lemma_desc_up_trans(self.up@, x, ulen as int, me as int);
                        }
                    }
                }
            }
            j = j + 1;
        }
        proof {
            assert(self.order@.subrange(0, me as int) =~= order0);
        }
    }
}

/// Lays the nodes out in depth-first pre-order: roots first in index order
/// (nodes without a link, then any node left over, which only a circle of links
/// leaves), each followed by its children in index order. Returns, for each
/// row, its node and the row of its parent.
pub fn layout(links: &Vec<Option<usize>>) -> (r: (Vec<usize>, Vec<Option<usize>>))
    requires
        links_ok(links@),
    ensures
        r.0@.len() == links@.len(),
        r.1@.len() == links@.len(),
        forall|k: int| 0 <= k < r.0@.len() ==> #[trigger] r.0@[k] < links@.len(),
        forall|k1: int, k2: int|
            0 <= k1 < k2 < r.0@.len() ==> #[trigger] r.0@[k1] != #[trigger] r.0@[k2],
        forall|k: int|
            0 <= k < r.1@.len() ==> (#[trigger] r.1@[k] matches Some(q) ==> q < k && links@[r.0@[k] as int]
                == Some(r.0@[q as int])),
        forall|k1: int, k2: int|
            0 <= k1 < k2 < r.1@.len() && #[trigger] r.1@[k1] is Some && r.1@[k1] == #[trigger] r.1@[k2]
                ==> r.0@[k1] < r.0@[k2],
        forall|k: int|
            0 <= k < r.1@.len() && reaches_root(links@, r.0@[k] as int, links@.len() as nat) ==> (
            #[trigger] r.1@[k] is None <==> links@[r.0@[k] as int] is None),
        acyclic(links@) ==> forall|k: int|
            0 <= k < r.1@.len() ==> (#[trigger] r.1@[k] is None <==> links@[r.0@[k] as int] is None),
        acyclic(links@) ==> forall|k1: int, k2: int|
            0 <= k1 < k2 < r.1@.len() && #[trigger] r.1@[k1] is None && #[trigger] r.1@[k2] is None
                ==> r.0@[k1] < r.0@[k2],
        preorder(r.1@),
{
    let m = links.len();
    let mut visited: Vec<bool> = Vec::new();
    let mut i: usize = 0;
    while i < m
        invariant
            i <= m,
            visited@.len() == i,
            forall|x: int| 0 <= x < i ==> !#[trigger] visited@[x],
        decreases m - i,
    {
        visited.push(false);
        i = i + 1;
    }
    let mut w = Walk { order: Vec::new(), up: Vec::new(), visited, pos: Ghost(Seq::new(m as nat, |x: int| 0)) };
    i = 0;
    while i < m
        invariant
            i <= m,
            m == links@.len(),
            w.inv(links@),
            forall|x: int| 0 <= x < m && #[trigger] w.visited@[x] ==> w.finished(links@, x),
            forall|x: int| 0 <= x < i && links@[x] is None ==> #[trigger] w.visited@[x],
            forall|k: int| 0 <= k < w.up@.len() ==> (#[trigger] w.up@[k] is None ==> w.order@[k] < i && links@[w.order@[k] as int] is None),
            forall|k1: int, k2: int|
                0 <= k1 < k2 < w.up@.len() && #[trigger] w.up@[k1] is None && #[trigger] w.up@[k2] is None
                    ==> w.order@[k1] < w.order@[k2],
        decreases m - i,
    {
        if links[i].is_none() && !w.visited[i] {
            let ghost ulen = w.up@.len();
            w.emit(links, i, None, Ghost(count_false(w.visited@)));
            proof {
                assert forall|k: int| 0 <= k < w.up@.len() implies (#[trigger] w.up@[k] is None ==> w.order@[k] < i + 1 && links@[w.order@[k] as int] is None) by {
                    if k < ulen {
                        assert(w.up@[k] == w.up@.subrange(0, ulen as int)[k]);
                        assert(w.order@[k] == w.order@.subrange(0, ulen as int)[k]);
                    }
                }
                assert forall|k1: int, k2: int|
                    0 <= k1 < k2 < w.up@.len() && #[trigger] w.up@[k1] is None && #[trigger] w.up@[k2] is None
                        implies w.order@[k1] < w.order@[k2] by {
                    if k2 < ulen {
                        assert(w.up@[k1] == w.up@.subrange(0, ulen as int)[k1]);
                        assert(w.up@[k2] == w.up@.subrange(0, ulen as int)[k2]);
                        assert(w.order@[k1] == w.order@.subrange(0, ulen as int)[k1]);
                        assert(w.order@[k2] == w.order@.subrange(0, ulen as int)[k2]);
                    } else if k1 < ulen {
                        assert(w.up@[k1] == w.up@.subrange(0, ulen as int)[k1]);
                        assert(w.order@[k1] == w.order@.subrange(0, ulen as int)[k1]);
                    }
                }
            }
        }
        i = i + 1;
    }
    proof {
        if acyclic(links@) {
            assert forall|x: int| 0 <= x < m implies #[trigger] w.visited@[x] by {
                if !w.visited@[x] {
                    lemma_unplaced_never_reaches_root(&w, links@, x, m as nat);
                }
            }
        }
    }
    proof {
        assert forall|x: int| 0 <= x < m && !w.visited@[x] implies !reaches_root(links@, x, m as nat) by {
            lemma_unplaced_never_reaches_root(&w, links@, x, m as nat);
        }
    }
    let ghost placed_all = forall|x: int| 0 <= x < m ==> #[trigger] w.visited@[x];
    let ghost order1 = w.order@;
    let ghost up1 = w.up@;
    let ghost v1 = w.visited@;
    let ghost len1 = w.order@.len();
    i = 0;
    while i < m
        invariant
            i <= m,
            m == links@.len(),
            w.inv(links@),
            forall|x: int| 0 <= x < i ==> #[trigger] w.visited@[x],
            placed_all ==> w.order@ == order1 && w.up@ == up1,
            placed_all ==> forall|x: int| 0 <= x < m ==> #[trigger] w.visited@[x],
            len1 <= w.order@.len(),
            w.order@.subrange(0, len1 as int) == order1,
            w.up@.subrange(0, len1 as int) == up1,
            v1.len() == m,
            forall|x: int| 0 <= x < m && v1[x] ==> #[trigger] w.visited@[x],
            forall|k: int| len1 <= k < w.order@.len() ==> !v1[#[trigger] w.order@[k] as int],
        decreases m - i,
    {
        if !w.visited[i] {
            let ghost olen = w.order@.len();
            let ghost before = w.visited@;
            w.emit(links, i, None, Ghost(count_false(w.visited@)));
            proof {
                assert(w.order@.subrange(0, len1 as int) =~= w.order@.subrange(0, olen as int).subrange(0, len1 as int));
                assert(w.up@.subrange(0, len1 as int) =~= w.up@.subrange(0, olen as int).subrange(0, len1 as int));
                assert forall|k: int| len1 <= k < w.order@.len() implies !v1[#[trigger] w.order@[k] as int] by {
                    if k < olen {
                        assert(w.order@[k] == w.order@.subrange(0, olen as int)[k]);
                    } else {
                        assert(!before[w.order@[k] as int]);
                    }
                }
            }
        }
        i = i + 1;
    }
    proof {
        assert forall|k1: int, k2: int|
            0 <= k1 < k2 < w.order@.len() implies #[trigger] w.order@[k1] != #[trigger] w.order@[k2] by {
            assert(w.pos@[w.order@[k1] as int] == k1);
            assert(w.pos@[w.order@[k2] as int] == k2);
        }
        lemma_rows_cover(&w, links@);
        assert forall|k: int|
            0 <= k < w.up@.len() && reaches_root(links@, w.order@[k] as int, m as nat) implies (
            #[trigger] w.up@[k] is None <==> links@[w.order@[k] as int] is None) by {
            if k < len1 {
                assert(w.up@[k] == up1[k]);
                assert(w.order@[k] == order1[k]);
            } else {
                assert(!v1[w.order@[k] as int]);
            }
        }
    }
    (w.order, w.up)
}

proof fn lemma_unplaced_never_reaches_root(w: &Walk, links: Seq<Option<usize>>, x: int, fuel: nat)
    requires
        w.inv(links),
        0 <= x < links.len(),
        !w.visited@[x],
        forall|y: int| 0 <= y < links.len() && #[trigger] w.visited@[y] ==> w.finished(links, y),
        forall|y: int| 0 <= y < links.len() && links[y] is None ==> #[trigger] w.visited@[y],
    ensures
        !reaches_root(links, x, fuel),
    decreases fuel,
{
    let p = links[x].unwrap();
    assert(links[x] matches Some(pp) ==> pp < links.len());
    if w.visited@[p as int] {
        assert(w.finished(links, p as int));
    }
    if fuel > 0 {
        lemma_unplaced_never_reaches_root(w, links, p as int, (fuel - 1) as nat);
    }
}

proof fn lemma_rows_cover(w: &Walk, links: Seq<Option<usize>>)
    requires
        w.inv(links),
        forall|x: int| 0 <= x < links.len() ==> #[trigger] w.visited@[x],
    ensures
        w.order@.len() == links.len(),
{
    let m = links.len() as int;
    let n = w.order@.len() as int;
    let rows = vstd::set_lib::set_int_range(0, n);
    let nodes = vstd::set_lib::set_int_range(0, m);
    vstd::set_lib::lemma_int_range(0, n);
    vstd::set_lib::lemma_int_range(0, m);
    let f = |x: int| w.pos@[x];
    assert(vstd::relations::injective_on(f, nodes)) by {
        assert forall|a: int, b: int| nodes.contains(a) && nodes.contains(b) && #[trigger] f(a) == #[trigger] f(b) implies a == b by {
            assert(w.visited@[a]);
            assert(w.visited@[b]);
            assert(w.order@[w.pos@[a]] == a);
            assert(w.order@[w.pos@[b]] == b);
        }
    }
    assert(nodes.map(f) =~= rows) by {
        assert forall|k: int| rows.contains(k) implies nodes.map(f).contains(k) by {
            let x = w.order@[k] as int;
            assert(nodes.contains(x) && f(x) == k);
        }
        assert forall|k: int| nodes.map(f).contains(k) implies rows.contains(k) by {
            let x = choose|x: int| nodes.contains(x) && f(x) == k;
            assert(w.visited@[x]);
        }
    }
    vstd::set_lib::lemma_map_size(nodes, rows, f);
}

} // verus!
