use vstd::prelude::*;

use crate::grammar::{
    copy_flags, falses_rows, falses_vec, lemma_falses_rows_set, lookahead_of, rows_of, Grammar,
    Symbol,
};
use crate::text::{copy_vec, str_equals};
use crate::token::{Numbers, Token, TokenKind, TokenType};

verus! {

/// An LR(1) item `[A -> α · β, a]`: production, dot position and lookahead
/// (terminal index; `num_terminals()` is the end marker).
#[derive(Clone, Copy, Debug, PartialEq, Eq, Structural)]
pub struct Item {
    pub prod: usize,
    pub dot: usize,
    pub lookahead: usize,
}

impl Grammar {
    pub open spec fn item_ok(&self, it: Item) -> bool {
        &&& it.prod < self.productions@.len()
        &&& it.dot <= self.body(it.prod as int).len()
        &&& it.lookahead <= self.num_terminals()
    }

    /// The symbol right after the dot, if any.
    pub open spec fn after_dot(&self, it: Item) -> Option<Symbol> {
        if it.dot < self.body(it.prod as int).len() {
            Some(self.body(it.prod as int)[it.dot as int])
        } else {
            None
        }
    }

    /// The closure adds `to` because of `from`: `from` is `[A -> α · B β, a]`
    /// and `to` is `[B -> · γ, b]` with `b` in FIRST(β a).
    pub open spec fn expands_to(&self, from: Item, to: Item) -> bool {
        match self.after_dot(from) {
            Some(Symbol::NonTerminal(b)) => {
                &&& to.prod < self.productions@.len()
                &&& self.head(to.prod as int) == b
                &&& to.dot == 0
                &&& to.lookahead <= self.num_terminals()
                &&& lookahead_of(
                    self,
                    self.body(from.prod as int).subrange(
                        from.dot + 1,
                        self.body(from.prod as int).len() as int,
                    ),
                    from.lookahead as int,
                    to.lookahead as int,
                )
            },
            _ => false,
        }
    }

    /// `it` is reached from `kernel` in at most `k` expansion steps.
    pub open spec fn derives_within(&self, kernel: Set<Item>, it: Item, k: nat) -> bool
        decreases k,
    {
        if k == 0 {
            kernel.contains(it)
        } else {
            self.derives_within(kernel, it, (k - 1) as nat) || exists|from: Item|
                self.derives_within(kernel, from, (k - 1) as nat) && #[trigger] self.expands_to(
                    from,
                    it,
                )
        }
    }

    /// `it` belongs to the closure of `kernel`: the least item set that
    /// contains `kernel` and every expansion of its members.
    pub open spec fn in_closure(&self, kernel: Set<Item>, it: Item) -> bool {
        exists|k: nat| self.derives_within(kernel, it, k)
    }

    pub open spec fn closure_of(&self, kernel: Set<Item>) -> Set<Item> {
        Set::new(|it: Item| self.in_closure(kernel, it))
    }

    proof fn lemma_closure_step(&self, kernel: Set<Item>, from: Item, to: Item)
        requires
            self.in_closure(kernel, from),
            self.expands_to(from, to),
        ensures
            self.in_closure(kernel, to),
    {
        let k = choose|k: nat| self.derives_within(kernel, from, k);
        assert(self.derives_within(kernel, to, k + 1));
    }

    proof fn lemma_kernel_in_closure(&self, kernel: Set<Item>, it: Item)
        requires
            kernel.contains(it),
        ensures
            self.in_closure(kernel, it),
    {
        assert(self.derives_within(kernel, it, 0));
    }

    /// A set that holds the kernel and is closed under expansion holds the
    /// whole closure.
    proof fn lemma_closed_holds_closure(&self, kernel: Set<Item>, items: Seq<Item>, it: Item, k: nat)
        requires
            forall|x: Item| kernel.contains(x) ==> items.contains(x),
            forall|j: int, to: Item|
                0 <= j < items.len() && #[trigger] self.expands_to(items[j], to) ==> items.contains(to),
            self.derives_within(kernel, it, k),
        ensures
            items.contains(it),
        decreases k,
    {
        if k > 0 {
            if self.derives_within(kernel, it, (k - 1) as nat) {
                self.lemma_closed_holds_closure(kernel, items, it, (k - 1) as nat);
            } else {
                let from = choose|from: Item|
                    self.derives_within(kernel, from, (k - 1) as nat) && #[trigger] self.expands_to(
                        from,
                        it,
                    );
                self.lemma_closed_holds_closure(kernel, items, from, (k - 1) as nat);
                let j = choose|j: int| 0 <= j < items.len() && items[j] == from;
                assert(self.expands_to(items[j], it));
            }
        }
    }
}

// ---------------------------------------------------------------------------
// Membership tables over all items
// ---------------------------------------------------------------------------

pub open spec fn cube_of(c: Seq<Vec<Vec<bool>>>) -> Seq<Seq<Seq<bool>>> {
    c.map_values(|m: Vec<Vec<bool>>| rows_of(m@))
}

pub open spec fn falses_cube(c: Seq<Seq<Seq<bool>>>) -> nat
    decreases c.len(),
{
    if c.len() == 0 {
        0
    } else {
        falses_rows(c.last()) + falses_cube(c.drop_last())
    }
}

proof fn lemma_falses_cube_set(c: Seq<Seq<Seq<bool>>>, p: int, d: int, a: int)
    requires
        0 <= p < c.len(),
        0 <= d < c[p].len(),
        0 <= a < c[p][d].len(),
        !c[p][d][a],
    ensures
        falses_cube(c.update(p, c[p].update(d, c[p][d].update(a, true)))) + 1 == falses_cube(c),
    decreases c.len(),
{
    let w = c.update(p, c[p].update(d, c[p][d].update(a, true)));
    if p < c.len() - 1 {
        lemma_falses_cube_set(c.drop_last(), p, d, a);
        assert(w.drop_last() =~= c.drop_last().update(p, c[p].update(d, c[p][d].update(a, true))));
    } else {
        lemma_falses_rows_set(c[p], d, a);
        assert(w.drop_last() =~= c.drop_last());
    }
}

impl Grammar {
    /// The membership table has one flag for each item of the grammar.
    pub open spec fn cube_dims(&self, c: Seq<Seq<Seq<bool>>>) -> bool {
        &&& c.len() == self.productions@.len()
        &&& forall|p: int|
            0 <= p < c.len() ==> #[trigger] c[p].len() == self.body(p).len() + 1
        &&& forall|p: int, d: int|
            0 <= p < c.len() && 0 <= d < c[p].len() ==> #[trigger] c[p][d].len()
                == self.num_terminals() + 1
    }

    fn empty_cube(&self) -> (r: Vec<Vec<Vec<bool>>>)
        requires
            self.wf(),
        ensures
            self.cube_dims(cube_of(r@)),
            forall|p: int, d: int, a: int|
                0 <= p < r@.len() && 0 <= d < r@[p]@.len() && 0 <= a < r@[p]@[d]@.len()
                    ==> !#[trigger] cube_of(r@)[p][d][a],
    {
        let np = self.productions.len();
        let nt = self.token_list.len();
        let mut r: Vec<Vec<Vec<bool>>> = Vec::new();
        let mut p: usize = 0;
        while p < np
            invariant
                self.wf(),
                np == self.productions@.len(),
                nt == self.num_terminals(),
                p <= np,
                r@.len() == p,
                forall|q: int| 0 <= q < p ==> #[trigger] r@[q]@.len() == self.body(q).len() + 1,
                forall|q: int, d: int|
                    0 <= q < p && 0 <= d < r@[q]@.len() ==> #[trigger] r@[q]@[d]@.len() == nt + 1,
                forall|q: int, d: int, a: int|
                    0 <= q < p && 0 <= d < r@[q]@.len() && 0 <= a < r@[q]@[d]@.len()
                        ==> !#[trigger] r@[q]@[d]@[a],
            decreases np - p,
        {
            let len = self.productions[p].body.len();
            assert(self.body(p as int).len() == len);
            let mut m: Vec<Vec<bool>> = Vec::new();
            let mut d: usize = 0;
            while d <= len
                invariant
                    d <= len + 1,
                    len + 1 < usize::MAX,
                    nt + 2 < usize::MAX,
                    m@.len() == d,
                    forall|e: int| 0 <= e < d ==> #[trigger] m@[e]@.len() == nt + 1,
                    forall|e: int, a: int| 0 <= e < d && 0 <= a < m@[e]@.len() ==> !#[trigger] m@[e]@[a],
                decreases len + 1 - d,
            {
                m.push(falses_vec(nt + 1));
                d = d + 1;
            }
            r.push(m);
            p = p + 1;
        }
        proof {
            let c = cube_of(r@);
            assert forall|q: int| 0 <= q < c.len() implies #[trigger] c[q].len() == self.body(q).len() + 1 by {
                assert(c[q] == rows_of(r@[q]@));
            }
            assert forall|q: int, d: int| 0 <= q < c.len() && 0 <= d < c[q].len() implies #[trigger] c[q][d].len()
                == self.num_terminals() + 1 by {
                assert(c[q] == rows_of(r@[q]@));
                assert(c[q][d] == r@[q]@[d]@);
            }
            assert forall|q: int, d: int, a: int|
                0 <= q < r@.len() && 0 <= d < r@[q]@.len() && 0 <= a < r@[q]@[d]@.len() implies !#[trigger] cube_of(r@)[q][d][a] by {
                assert(c[q] == rows_of(r@[q]@));
                assert(c[q][d] == r@[q]@[d]@);
            }
        }
        r
    }
}

fn copy_matrix(m: &Vec<Vec<bool>>) -> (r: Vec<Vec<bool>>)
    ensures
        rows_of(r@) == rows_of(m@),
{
    let mut out: Vec<Vec<bool>> = Vec::new();
    let mut i: usize = 0;
    while i < m.len()
        invariant
            i <= m@.len(),
            out@.len() == i,
            forall|j: int| 0 <= j < i ==> #[trigger] out@[j]@ == m@[j]@,
        decreases m@.len() - i,
    {
        out.push(copy_flags(&m[i]));
        i = i + 1;
    }
    assert(rows_of(out@) =~= rows_of(m@));
    out
}

/// Sets flag `[p][d][a]`.
fn set_cube(c: &mut Vec<Vec<Vec<bool>>>, p: usize, d: usize, a: usize)
    requires
        p < old(c)@.len(),
        d < old(c)@[p as int]@.len(),
        a < old(c)@[p as int]@[d as int]@.len(),
    ensures
        cube_of(final(c)@) == cube_of(old(c)@).update(
            p as int,
            cube_of(old(c)@)[p as int].update(
                d as int,
                cube_of(old(c)@)[p as int][d as int].update(a as int, true),
            ),
        ),
{
    let mut m = copy_matrix(&c[p]);
    proof {
        assert(rows_of(m@).len() == m@.len());
        assert(rows_of(old(c)@[p as int]@).len() == old(c)@[p as int]@.len());
        assert(rows_of(m@)[d as int] == m@[d as int]@);
        assert(rows_of(old(c)@[p as int]@)[d as int] == old(c)@[p as int]@[d as int]@);
    }
    let mut row = copy_flags(&m[d]);
    row.set(a, true);
    m.set(d, row);
    c.set(p, m);
    let ghost old_cube = cube_of(old(c)@);
    assert(rows_of(m@) =~= old_cube[p as int].update(d as int, old_cube[p as int][d as int].update(a as int, true)));
    assert(cube_of(c@) =~= old_cube.update(
        p as int,
        old_cube[p as int].update(d as int, old_cube[p as int][d as int].update(a as int, true)),
    ));
}

fn copy_symbols(w: &Vec<Symbol>, from: usize) -> (r: Vec<Symbol>)
    requires
        from <= w@.len(),
    ensures
        r@ == w@.subrange(from as int, w@.len() as int),
{
    let mut out: Vec<Symbol> = Vec::new();
    let mut i = from;
    while i < w.len()
        invariant
            from <= i <= w@.len(),
            out@ == w@.subrange(from as int, i as int),
        decreases w@.len() - i,
    {
        out.push(w[i]);
        assert(w@.subrange(from as int, i + 1) == w@.subrange(from as int, i as int).push(w@[i as int]));
        i = i + 1;
    }
    out
}

proof fn lemma_push_keeps(s: Seq<Item>, x: Item, y: Item)
    requires
        s.contains(y),
    ensures
        s.push(x).contains(y),
{
    let j = choose|j: int| 0 <= j < s.len() && s[j] == y;
    assert(s.push(x)[j] == y);
}

impl Grammar {
    /// `cube` flags exactly the items of `items`.
    pub open spec fn tracks(&self, cube: Seq<Seq<Seq<bool>>>, items: Seq<Item>) -> bool {
        forall|it: Item| #[trigger] self.item_ok(it) ==> (cube[it.prod as int][it.dot as int][it.lookahead as int]
            <==> items.contains(it))
    }

    /// The state of a closure under construction: valid distinct items, each
    /// in the closure of `kernel`, flagged in `cube`.
    pub open spec fn closure_state(&self, kernel: Set<Item>, cube: Seq<Seq<Seq<bool>>>, items: Seq<Item>) -> bool {
        &&& self.wf()
        &&& self.cube_dims(cube)
        &&& self.tracks(cube, items)
        &&& items.no_duplicates()
        &&& forall|j: int| 0 <= j < items.len() ==> #[trigger] self.item_ok(items[j])
        &&& forall|j: int| 0 <= j < items.len() ==> self.in_closure(kernel, #[trigger] items[j])
    }

    /// Adds `it` to `items` unless it is there already.
    fn add_item(
        &self,
        Ghost(kernel): Ghost<Set<Item>>,
        present: &mut Vec<Vec<Vec<bool>>>,
        items: &mut Vec<Item>,
        it: Item,
    )
        requires
            self.closure_state(kernel, cube_of(old(present)@), old(items)@),
            self.item_ok(it),
            self.in_closure(kernel, it),
        ensures
            self.closure_state(kernel, cube_of(final(present)@), final(items)@),
            final(items)@ == (if old(items)@.contains(it) {
                old(items)@
            } else {
                old(items)@.push(it)
            }),
            old(items)@.contains(it) ==> falses_cube(cube_of(final(present)@)) == falses_cube(
                cube_of(old(present)@),
            ),
            !old(items)@.contains(it) ==> falses_cube(cube_of(final(present)@)) + 1 == falses_cube(
                cube_of(old(present)@),
            ),
    {
        let ghost c0 = cube_of(present@);
        proof {
            assert(c0[it.prod as int] == rows_of(present@[it.prod as int]@));
            assert(c0[it.prod as int][it.dot as int] == present@[it.prod as int]@[it.dot as int]@);
        }
        if !present[it.prod][it.dot][it.lookahead] {
            set_cube(present, it.prod, it.dot, it.lookahead);
            let ghost old_items = items@;
            items.push(it);
            proof {
                lemma_falses_cube_set(c0, it.prod as int, it.dot as int, it.lookahead as int);
                let c1 = cube_of(present@);
                assert forall|x: Item| #[trigger] self.item_ok(x) implies (c1[x.prod as int][x.dot as int][x.lookahead as int]
                    <==> items@.contains(x)) by {
                    if x == it {
                        assert(items@[items@.len() - 1] == it);
                    } else {
                        assert(c1[x.prod as int][x.dot as int][x.lookahead as int] == c0[x.prod as int][x.dot as int][x.lookahead as int]);
                        if old_items.contains(x) {
                            lemma_push_keeps(old_items, it, x);
                        }
                        if items@.contains(x) {
                            let j = choose|j: int| 0 <= j < items@.len() && items@[j] == x;
                            assert(old_items[j] == x);
                        }
                    }
                }
                assert forall|i: int, j: int| 0 <= i < j < items@.len() implies items@[i] != items@[j] by {
                    if j == items@.len() - 1 {
                        assert(old_items[i] == items@[i]);
                    }
                }
                assert forall|p: int| 0 <= p < c1.len() implies #[trigger] c1[p].len() == self.body(p).len() + 1 by {
                    if p != it.prod {
                        assert(c1[p] == c0[p]);
                    }
                }
                assert forall|p: int, d: int| 0 <= p < c1.len() && 0 <= d < c1[p].len() implies #[trigger] c1[p][d].len()
                    == self.num_terminals() + 1 by {
                    if p != it.prod || d != it.dot {
                        assert(c1[p][d] == c0[p][d]);
                    }
                }
            }
        } else {
            assert(c0[it.prod as int][it.dot as int][it.lookahead as int]);
        }
    }

    /// The closure of an item set: every item `[B -> · γ, b]` for each item
    /// `[A -> α · B β, a]` and each `b` in FIRST(β a), repeated until nothing new appears.
    pub fn closure(&self, kernel: &Vec<Item>) -> (r: Vec<Item>)
        requires
            self.wf(),
            forall|i: int| 0 <= i < kernel@.len() ==> self.item_ok(#[trigger] kernel@[i]),
        ensures
            forall|i: int| 0 <= i < r@.len() ==> self.item_ok(#[trigger] r@[i]),
            r@.no_duplicates(),
            forall|it: Item| #[trigger] r@.contains(it) <==> self.in_closure(kernel@.to_set(), it),
    {
        let ghost kset = kernel@.to_set();
        let np = self.productions.len();
        let nt = self.token_list.len();
        let mut present = self.empty_cube();
        let mut items: Vec<Item> = Vec::new();
        proof {
            let c = cube_of(present@);
            assert forall|it: Item| #[trigger] self.item_ok(it) implies (c[it.prod as int][it.dot as int][it.lookahead as int]
                <==> items@.contains(it)) by {
                assert(c[it.prod as int] == rows_of(present@[it.prod as int]@));
                assert(c[it.prod as int][it.dot as int] == present@[it.prod as int]@[it.dot as int]@);
            }
        }
        let mut i: usize = 0;
        while i < kernel.len()
            invariant
                self.closure_state(kset, cube_of(present@), items@),
                kset == kernel@.to_set(),
                forall|k: int| 0 <= k < kernel@.len() ==> self.item_ok(#[trigger] kernel@[k]),
                i <= kernel@.len(),
                forall|j: int| 0 <= j < i ==> items@.contains(#[trigger] kernel@[j]),
            decreases kernel@.len() - i,
        {
            let it = kernel[i];
            proof {
                assert(kset.contains(it));
                self.lemma_kernel_in_closure(kset, it);
            }
            let ghost before = items@;
            self.add_item(Ghost(kset), &mut present, &mut items, it);
            proof {
                assert forall|j: int| 0 <= j <= i implies items@.contains(#[trigger] kernel@[j]) by {
                    if j < i {
                        if before != items@ {
                            lemma_push_keeps(before, it, kernel@[j]);
                        }
                    } else if before == items@ {
                    } else {
                        assert(items@[items@.len() - 1] == it);
                    }
                }
            }
            i = i + 1;
        }
        let mut cur: usize = 0;
        while cur < items.len()
            invariant
                self.closure_state(kset, cube_of(present@), items@),
                np == self.productions@.len(),
                nt == self.num_terminals(),
                cur <= items@.len(),
                forall|x: Item| kset.contains(x) ==> items@.contains(x),
                forall|j: int, to: Item|
                    0 <= j < cur && #[trigger] self.expands_to(items@[j], to) ==> items@.contains(to),
            decreases falses_cube(cube_of(present@)), items@.len() - cur,
        {
            let it = items[cur];
            let ghost f0 = falses_cube(cube_of(present@));
            let ghost n0 = items@.len();
            let ghost i0 = items@;
            proof {
                assert(self.item_ok(it));
            }
            let len = self.productions[it.prod].body.len();
            if it.dot < len {
                match self.productions[it.prod].body[it.dot] {
                    Symbol::NonTerminal(b) => {
                        let rest = copy_symbols(&self.productions[it.prod].body, it.dot + 1);
                        proof {
                            assert forall|k: int| 0 <= k < rest@.len() implies self.symbol_ok(#[trigger] rest@[k]) by {
                                assert(rest@[k] == self.body(it.prod as int)[it.dot + 1 + k]);
                            }
                        }
                        let la = self.first_symbols(&rest, it.lookahead);
                        let mut q: usize = 0;
                        while q < np
                            invariant
                                self.closure_state(kset, cube_of(present@), items@),
                                np == self.productions@.len(),
                                nt == self.num_terminals(),
                                cur < items@.len(),
                                items@[cur as int] == it,
                                self.after_dot(it) == Some(Symbol::NonTerminal(b)),
                                rest@ == self.body(it.prod as int).subrange(it.dot + 1, self.body(it.prod as int).len() as int),
                                la@.len() == nt + 1,
                                forall|t: int| 0 <= t <= nt ==> #[trigger] la@[t] == lookahead_of(self, rest@, it.lookahead as int, t),
                                q <= np,
                                forall|x: Item| kset.contains(x) ==> items@.contains(x),
                                forall|j: int, to: Item|
                                    0 <= j < cur && #[trigger] self.expands_to(items@[j], to) ==> items@.contains(to),
                                forall|to: Item| to.prod < q && #[trigger] self.expands_to(it, to) ==> items@.contains(to),
                                items@.len() >= n0,
                                forall|j: int| 0 <= j < n0 ==> #[trigger] items@[j] == i0[j],
                                falses_cube(cube_of(present@)) + (items@.len() - n0) == f0,
                            decreases np - q,
                        {
                            if self.productions[q].head == b {
                                let mut t: usize = 0;
                                while t <= nt
                                    invariant
                                        self.closure_state(kset, cube_of(present@), items@),
                                        np == self.productions@.len(),
                                        nt == self.num_terminals(),
                                        cur < items@.len(),
                                        items@[cur as int] == it,
                                        self.after_dot(it) == Some(Symbol::NonTerminal(b)),
                                        rest@ == self.body(it.prod as int).subrange(it.dot + 1, self.body(it.prod as int).len() as int),
                                        la@.len() == nt + 1,
                                        forall|u: int| 0 <= u <= nt ==> #[trigger] la@[u] == lookahead_of(self, rest@, it.lookahead as int, u),
                                        q < np,
                                        self.head(q as int) == b,
                                        t <= nt + 1,
                                        forall|x: Item| kset.contains(x) ==> items@.contains(x),
                                        forall|j: int, to: Item|
                                            0 <= j < cur && #[trigger] self.expands_to(items@[j], to) ==> items@.contains(to),
                                        forall|to: Item| (to.prod < q || (to.prod == q && to.lookahead < t)) && #[trigger] self.expands_to(it, to) ==> items@.contains(to),
                                        items@.len() >= n0,
                                        forall|j: int| 0 <= j < n0 ==> #[trigger] items@[j] == i0[j],
                                        falses_cube(cube_of(present@)) + (items@.len() - n0) == f0,
                                    decreases nt + 1 - t,
                                {
                                    if la[t] {
                                        let next = Item { prod: q, dot: 0, lookahead: t };
                                        proof {
                                            assert(self.expands_to(it, next));
                                            assert(self.in_closure(kset, it));
                                            self.lemma_closure_step(kset, it, next);
                                        }
                                        let ghost before = items@;
                                        self.add_item(Ghost(kset), &mut present, &mut items, next);
                                        proof {
                                            if before != items@ {
                                                assert forall|x: Item| before.contains(x) implies items@.contains(x) by {
                                                    lemma_push_keeps(before, next, x);
                                                }
                                                assert(items@[items@.len() - 1] == next);
                                            }
                                        }
                                    }
                                    t = t + 1;
                                }
                            }
                            q = q + 1;
                        }
                    },
                    Symbol::Terminal(_) => {},
                }
            }
            cur = cur + 1;
        }
        proof {
            assert forall|x: Item| #[trigger] items@.contains(x) <==> self.in_closure(kset, x) by {
                if self.in_closure(kset, x) {
                    let k = choose|k: nat| self.derives_within(kset, x, k);
                    self.lemma_closed_holds_closure(kset, items@, x, k);
                }
                if items@.contains(x) {
                    let j = choose|j: int| 0 <= j < items@.len() && items@[j] == x;
                }
            }
        }
        items
    }
}

// ---------------------------------------------------------------------------
// Goto and the canonical collection
// ---------------------------------------------------------------------------

/// A resource bound of this library, not part of the LR(1) method: table
/// construction reports `TooManyStates` rather than build a canonical
/// collection with more states than this.
pub const STATE_LIMIT: usize = 65536;

pub open spec fn advanced(it: Item) -> Item {
    Item { prod: it.prod, dot: (it.dot + 1) as usize, lookahead: it.lookahead }
}

pub open spec fn item_set(v: Vec<Item>) -> Set<Item> {
    v@.to_set()
}

impl Grammar {
    /// The items of `items` with `x` after the dot, with the dot moved over `x`.
    pub open spec fn goto_kernel(&self, items: Set<Item>, x: Symbol) -> Set<Item> {
        Set::new(
            |to: Item|
                exists|from: Item|
                    items.contains(from) && #[trigger] self.after_dot(from) == Some(x) && to
                        == advanced(from),
        )
    }

    /// Goto(I, X): the closure of the kernel that moving over `x` gives.
    pub open spec fn goto_of(&self, items: Set<Item>, x: Symbol) -> Set<Item> {
        self.closure_of(self.goto_kernel(items, x))
    }

    /// The grammar symbol with index `x`: terminals first, then nonterminals.
    pub open spec fn symbol_at(&self, x: int) -> Symbol {
        if x < self.num_terminals() {
            Symbol::Terminal(x as usize)
        } else {
            Symbol::NonTerminal((x - self.num_terminals()) as usize)
        }
    }

    pub open spec fn num_symbols(&self) -> int {
        self.num_terminals() + self.num_nonterminals()
    }

    /// The initial state: the closure of `[S' -> · S, #]`.
    pub open spec fn start_set(&self) -> Set<Item> {
        self.closure_of(set![Item { prod: 0, dot: 0, lookahead: self.num_terminals() as usize }])
    }

    /// `states` and `trans` form the canonical LR(1) collection: state 0 is
    /// the start set; `trans[s][x]` is the state equal, as a set, to
    /// Goto(states[s], x), or absent when that set is empty; the states are
    /// distinct sets, and each after the first is the goto target of an
    /// earlier one.
    pub open spec fn collection_ok(&self, states: Seq<Vec<Item>>, trans: Seq<Vec<Option<usize>>>) -> bool {
        &&& states.len() >= 1
        &&& states.len() <= STATE_LIMIT
        &&& trans.len() == states.len()
        &&& item_set(states[0]) == self.start_set()
        &&& forall|s: int, i: int| 0 <= s < states.len() && 0 <= i < states[s]@.len() ==> self.item_ok(#[trigger] states[s]@[i])
        &&& forall|s: int| 0 <= s < states.len() ==> (#[trigger] states[s])@.no_duplicates()
        &&& forall|i: int, j: int| 0 <= i < j < states.len() ==> item_set(#[trigger] states[i]) != item_set(#[trigger] states[j])
        &&& forall|s: int| 0 <= s < states.len() ==> (#[trigger] trans[s])@.len() == self.num_symbols()
        &&& forall|s: int, x: int| 0 <= s < states.len() && 0 <= x < self.num_symbols() ==> self.transition_ok(states, s, x, #[trigger] trans[s]@[x])
        &&& forall|j: int| 1 <= j < states.len() ==> #[trigger] self.reached_before(trans, j)
    }

    /// State `j` is the goto target of some earlier state.
    pub open spec fn reached_before(&self, trans: Seq<Vec<Option<usize>>>, j: int) -> bool {
        exists|s: int, x: int| 0 <= s < j && s < trans.len() && 0 <= x < self.num_symbols() && #[trigger] trans[s]@[x] == Some(j as usize)
    }

    pub open spec fn transition_ok(&self, states: Seq<Vec<Item>>, s: int, x: int, target: Option<usize>) -> bool {
        match target {
            Some(j) => j < states.len() && item_set(states[j as int]) == self.goto_of(item_set(states[s]), self.symbol_at(x))
                && item_set(states[j as int]) != Set::<Item>::empty(),
            None => self.goto_of(item_set(states[s]), self.symbol_at(x)) == Set::<Item>::empty(),
        }
    }

    proof fn lemma_empty_kernel(&self, kernel: Set<Item>, it: Item, k: nat)
        requires
            forall|x: Item| !kernel.contains(x),
        ensures
            !self.derives_within(kernel, it, k),
        decreases k,
    {
        if k > 0 {
            self.lemma_empty_kernel(kernel, it, (k - 1) as nat);
            if exists|from: Item| self.derives_within(kernel, from, (k - 1) as nat) && #[trigger] self.expands_to(from, it) {
                let from = choose|from: Item| self.derives_within(kernel, from, (k - 1) as nat) && #[trigger] self.expands_to(from, it);
                self.lemma_empty_kernel(kernel, from, (k - 1) as nat);
            }
        } else {
            assert(!kernel.contains(it));
        }
    }

    /// Goto(items, x).
    pub fn goto(&self, items: &Vec<Item>, x: Symbol) -> (r: Vec<Item>)
        requires
            self.wf(),
            self.symbol_ok(x),
            forall|i: int| 0 <= i < items@.len() ==> self.item_ok(#[trigger] items@[i]),
        ensures
            forall|i: int| 0 <= i < r@.len() ==> self.item_ok(#[trigger] r@[i]),
            r@.no_duplicates(),
            item_set(r) == self.goto_of(item_set(*items), x),
    {
        let mut kernel: Vec<Item> = Vec::new();
        let mut i: usize = 0;
        while i < items.len()
            invariant
                self.wf(),
                forall|k: int| 0 <= k < items@.len() ==> self.item_ok(#[trigger] items@[k]),
                i <= items@.len(),
                forall|k: int| 0 <= k < kernel@.len() ==> self.item_ok(#[trigger] kernel@[k]),
                forall|to: Item| #[trigger] kernel@.contains(to) <==> exists|j: int| 0 <= j < i && self.after_dot(items@[j]) == Some(x) && to == advanced(#[trigger] items@[j]),
            decreases items@.len() - i,
        {
            let it = items[i];
            let ghost before = kernel@;
            proof {
                assert(self.item_ok(it));
            }
            let body = &self.productions[it.prod].body;
            if it.dot < body.len() && body[it.dot] == x {
                let next = Item { prod: it.prod, dot: it.dot + 1, lookahead: it.lookahead };
                kernel.push(next);
                proof {
                    assert forall|to: Item| #[trigger] kernel@.contains(to) <==> exists|j: int| 0 <= j < i + 1 && self.after_dot(items@[j]) == Some(x) && to == advanced(#[trigger] items@[j]) by {
                        if kernel@.contains(to) {
                            let k = choose|k: int| 0 <= k < kernel@.len() && kernel@[k] == to;
                            if k < before.len() {
                                assert(before.contains(to));
                            } else {
                                assert(to == advanced(items@[i as int]));
                            }
                        }
                        if exists|j: int| 0 <= j < i + 1 && self.after_dot(items@[j]) == Some(x) && to == advanced(#[trigger] items@[j]) {
                            let j = choose|j: int| 0 <= j < i + 1 && self.after_dot(items@[j]) == Some(x) && to == advanced(#[trigger] items@[j]);
                            if j < i {
                                assert(before.contains(to));
                                lemma_push_keeps(before, next, to);
                            } else {
                                assert(kernel@[kernel@.len() - 1] == to);
                            }
                        }
                    }
                }
            } else {
                proof {
                    assert forall|to: Item| #[trigger] kernel@.contains(to) <==> exists|j: int| 0 <= j < i + 1 && self.after_dot(items@[j]) == Some(x) && to == advanced(#[trigger] items@[j]) by {
                        if exists|j: int| 0 <= j < i + 1 && self.after_dot(items@[j]) == Some(x) && to == advanced(#[trigger] items@[j]) {
                            let j = choose|j: int| 0 <= j < i + 1 && self.after_dot(items@[j]) == Some(x) && to == advanced(#[trigger] items@[j]);
                            assert(j < i);
                        }
                    }
                }
            }
            i = i + 1;
        }
        proof {
            let gk = self.goto_kernel(item_set(*items), x);
            assert forall|to: Item| kernel@.to_set().contains(to) <==> gk.contains(to) by {
                if gk.contains(to) {
                    let from = choose|from: Item| item_set(*items).contains(from) && #[trigger] self.after_dot(from) == Some(x) && to == advanced(from);
                    assert(items@.contains(from));
                    let j = choose|j: int| 0 <= j < items@.len() && items@[j] == from;
                    assert(kernel@.contains(to));
                }
                if kernel@.contains(to) {
                    let j = choose|j: int| 0 <= j < i && self.after_dot(items@[j]) == Some(x) && to == advanced(#[trigger] items@[j]);
                    assert(item_set(*items).contains(items@[j]));
                }
            }
            assert(kernel@.to_set() =~= gk);
        }
        if kernel.len() == 0 {
            proof {
                assert(kernel@.to_set() =~= Set::<Item>::empty());
                assert forall|it: Item| !self.goto_of(item_set(*items), x).contains(it) by {
                    if self.in_closure(kernel@.to_set(), it) {
                        let k = choose|k: nat| self.derives_within(kernel@.to_set(), it, k);
                        self.lemma_empty_kernel(kernel@.to_set(), it, k);
                    }
                }
                assert(item_set(kernel) =~= self.goto_of(item_set(*items), x));
            }
            return kernel;
        }
        let r = self.closure(&kernel);
        proof {
            assert(item_set(r) =~= self.goto_of(item_set(*items), x));
        }
        r
    }
}

fn contains_item(v: &Vec<Item>, it: Item) -> (r: bool)
    ensures
        r == v@.contains(it),
{
    let mut i: usize = 0;
    while i < v.len()
        invariant
            i <= v@.len(),
            forall|j: int| 0 <= j < i ==> v@[j] != it,
        decreases v@.len() - i,
    {
        if v[i] == it {
            return true;
        }
        i = i + 1;
    }
    false
}

/// Whether two item lists without repetitions hold the same items.
fn same_items(a: &Vec<Item>, b: &Vec<Item>) -> (r: bool)
    requires
        a@.no_duplicates(),
        b@.no_duplicates(),
    ensures
        r == (item_set(*a) == item_set(*b)),
{
    if a.len() != b.len() {
        proof {
            a@.unique_seq_to_set();
            b@.unique_seq_to_set();
        }
        return false;
    }
    let mut i: usize = 0;
    while i < a.len()
        invariant
            i <= a@.len(),
            forall|j: int| 0 <= j < i ==> b@.contains(#[trigger] a@[j]),
        decreases a@.len() - i,
    {
        if !contains_item(b, a[i]) {
            proof {
                assert(item_set(*a).contains(a@[i as int]));
            }
            return false;
        }
        i = i + 1;
    }
    let mut k: usize = 0;
    while k < b.len()
        invariant
            k <= b@.len(),
            forall|j: int| 0 <= j < a@.len() ==> b@.contains(#[trigger] a@[j]),
            forall|j: int| 0 <= j < k ==> a@.contains(#[trigger] b@[j]),
        decreases b@.len() - k,
    {
        if !contains_item(a, b[k]) {
            proof {
                assert(item_set(*b).contains(b@[k as int]));
            }
            return false;
        }
        k = k + 1;
    }
    proof {
        assert forall|it: Item| item_set(*a).contains(it) <==> item_set(*b).contains(it) by {
            if a@.contains(it) {
                let j = choose|j: int| 0 <= j < a@.len() && a@[j] == it;
            }
            if b@.contains(it) {
                let j = choose|j: int| 0 <= j < b@.len() && b@[j] == it;
            }
        }
        assert(item_set(*a) =~= item_set(*b));
    }
    true
}

/// The index of the state that holds the same items as `items`, if any.
fn find_state(states: &Vec<Vec<Item>>, items: &Vec<Item>) -> (r: Option<usize>)
    requires
        forall|s: int| 0 <= s < states@.len() ==> (#[trigger] states@[s])@.no_duplicates(),
        items@.no_duplicates(),
    ensures
        r matches Some(j) ==> j < states@.len() && item_set(states@[j as int]) == item_set(*items),
        r is None ==> forall|j: int| 0 <= j < states@.len() ==> item_set(#[trigger] states@[j]) != item_set(*items),
{
    let mut j: usize = 0;
    while j < states.len()
        invariant
            forall|s: int| 0 <= s < states@.len() ==> (#[trigger] states@[s])@.no_duplicates(),
            items@.no_duplicates(),
            j <= states@.len(),
            forall|k: int| 0 <= k < j ==> item_set(#[trigger] states@[k]) != item_set(*items),
        decreases states@.len() - j,
    {
        if same_items(&states[j], items) {
            return Some(j);
        }
        j = j + 1;
    }
    None
}

// ---------------------------------------------------------------------------
// The parser and its tables
// ---------------------------------------------------------------------------

/// An entry of the action table.
#[derive(Clone, Copy, Debug, PartialEq, Eq, Structural)]
pub enum Action {
    Shift(usize),
    Reduce(usize),
    Accept,
}

/// A second action proposed for a cell of the action table that already
/// held another: the first one stays, the other is recorded here.
#[derive(Clone, Copy, Debug, PartialEq, Eq, Structural)]
pub struct Conflict {
    pub state: usize,
    pub terminal: usize,
    pub kept: Action,
    pub rejected: Action,
}

#[derive(Clone, Copy, Debug, PartialEq, Eq, Structural)]
pub enum TableError {
    /// The canonical collection has more than `STATE_LIMIT` states: no
    /// collection within the limit exists.
    TooManyStates,
}

/// The canonical LR(1) collection of a grammar with its parsing tables.
///
/// `transitions[s][x]` is the goto target of state `s` on the symbol with
/// index `x` (terminals first, then nonterminals); `action_table[s][t]` is
/// indexed by terminal, the end marker last; `goto_table[s][n]` by nonterminal.
pub struct LR1Parser {
    pub lr1_sets: Vec<Vec<Item>>,
    pub transitions: Vec<Vec<Option<usize>>>,
    pub action_table: Vec<Vec<Option<Action>>>,
    pub goto_table: Vec<Vec<Option<usize>>>,
    pub conflicts: Vec<Conflict>,
}

proof fn lemma_transition_grows(g: &Grammar, states: Seq<Vec<Item>>, v: Vec<Item>, s: int, x: int, t: Option<usize>)
    requires
        0 <= s < states.len(),
        g.transition_ok(states, s, x, t),
    ensures
        g.transition_ok(states.push(v), s, x, t),
{
    assert(states.push(v)[s] == states[s]);
    if let Some(j) = t {
        assert(states.push(v)[j as int] == states[j as int]);
    }
}

impl LR1Parser {
    pub fn new() -> (p: LR1Parser)
        ensures
            p.lr1_sets@.len() == 0,
            p.transitions@.len() == 0,
            p.action_table@.len() == 0,
            p.goto_table@.len() == 0,
            p.conflicts@.len() == 0,
    {
        LR1Parser {
            lr1_sets: Vec::new(),
            transitions: Vec::new(),
            action_table: Vec::new(),
            goto_table: Vec::new(),
            conflicts: Vec::new(),
        }
    }

    /// Builds the canonical collection of LR(1) item sets: states are
    /// numbered in discovery order, visiting the symbols of each state in
    /// index order, and compared by the set of items they hold.
    pub fn compute_lr1_item_sets(&mut self, g: &Grammar) -> (r: Result<(), TableError>)
        requires
            g.wf(),
        ensures
            r is Ok ==> g.collection_ok(final(self).lr1_sets@, final(self).transitions@),
            r is Err ==> forall|b: Seq<Vec<Item>>, tb: Seq<Vec<Option<usize>>>| !#[trigger] g.collection_ok(b, tb),
            final(self).action_table@ == old(self).action_table@,
            final(self).goto_table@ == old(self).goto_table@,
            final(self).conflicts@ == old(self).conflicts@,
    {
        let nt = g.token_list.len();
        let nsym = nt + g.nonterminals.len();
        let start = Item { prod: 0, dot: 0, lookahead: nt };
        let mut kernel: Vec<Item> = Vec::new();
        kernel.push(start);
        proof {
            assert(g.item_ok(start));
        }
        let first = g.closure(&kernel);
        proof {
            assert(kernel@ == seq![start]);
            assert forall|it: Item| kernel@.to_set().contains(it) <==> set![start].contains(it) by {
                if it == start {
                    assert(kernel@[0] == it);
                }
            }
            assert(kernel@.to_set() =~= set![start]);
            assert(item_set(first) =~= g.start_set());
        }
        let mut states: Vec<Vec<Item>> = Vec::new();
        states.push(first);
        let mut trans: Vec<Vec<Option<usize>>> = Vec::new();
        let mut k: usize = 0;
        while k < states.len()
            invariant
                g.wf(),
                nt == g.num_terminals(),
                nsym == g.num_symbols(),
                1 <= states@.len() <= STATE_LIMIT,
                k <= states@.len(),
                trans@.len() == k,
                item_set(states@[0]) == g.start_set(),
                forall|s: int, i: int| 0 <= s < states@.len() && 0 <= i < states@[s]@.len() ==> g.item_ok(#[trigger] states@[s]@[i]),
                forall|s: int| 0 <= s < states@.len() ==> (#[trigger] states@[s])@.no_duplicates(),
                forall|i: int, j: int| 0 <= i < j < states@.len() ==> item_set(#[trigger] states@[i]) != item_set(#[trigger] states@[j]),
                forall|s: int| 0 <= s < k ==> (#[trigger] trans@[s])@.len() == nsym,
                forall|s: int, x: int| 0 <= s < k && 0 <= x < nsym ==> g.transition_ok(states@, s, x, #[trigger] trans@[s]@[x]),
                forall|j: int| 1 <= j < states@.len() ==> #[trigger] g.reached_before(trans@, j),
                self.action_table@ == old(self).action_table@,
                self.goto_table@ == old(self).goto_table@,
                self.conflicts@ == old(self).conflicts@,
            decreases STATE_LIMIT - k,
        {
            let mut row: Vec<Option<usize>> = Vec::new();
            let mut x: usize = 0;
            while x < nsym
                invariant
                    g.wf(),
                    nt == g.num_terminals(),
                    nsym == g.num_symbols(),
                    1 <= states@.len() <= STATE_LIMIT,
                    k < states@.len(),
                    trans@.len() == k,
                    x <= nsym,
                    row@.len() == x,
                    item_set(states@[0]) == g.start_set(),
                    forall|s: int, i: int| 0 <= s < states@.len() && 0 <= i < states@[s]@.len() ==> g.item_ok(#[trigger] states@[s]@[i]),
                    forall|s: int| 0 <= s < states@.len() ==> (#[trigger] states@[s])@.no_duplicates(),
                    forall|i: int, j: int| 0 <= i < j < states@.len() ==> item_set(#[trigger] states@[i]) != item_set(#[trigger] states@[j]),
                    forall|s: int| 0 <= s < k ==> (#[trigger] trans@[s])@.len() == nsym,
                    forall|s: int, y: int| 0 <= s < k && 0 <= y < nsym ==> g.transition_ok(states@, s, y, #[trigger] trans@[s]@[y]),
                    forall|y: int| 0 <= y < x ==> g.transition_ok(states@, k as int, y, #[trigger] row@[y]),
                    forall|j: int| 1 <= j < states@.len() ==> #[trigger] g.reached_before(trans@, j) || (k < j && exists|y: int| 0 <= y < x && #[trigger] row@[y] == Some(j as usize)),
                self.action_table@ == old(self).action_table@,
                self.goto_table@ == old(self).goto_table@,
                self.conflicts@ == old(self).conflicts@,
                decreases nsym - x,
            {
                let sym = if x < nt { Symbol::Terminal(x) } else { Symbol::NonTerminal(x - nt) };
                assert(sym == g.symbol_at(x as int));
                let next = g.goto(&states[k], sym);
                let ghost before = states@;
                let ghost row_before = row@;
                if next.len() == 0 {
                    proof {
                        assert(item_set(next) =~= Set::<Item>::empty());
                    }
                    row.push(None);
                } else {
                    proof {
                        assert(item_set(next).contains(next@[0]));
                    }
                    match find_state(&states, &next) {
                        Some(j) => {
                            row.push(Some(j));
                        },
                        None => {
                            if states.len() >= STATE_LIMIT {
                                proof {
                                    let a = states@.push(next);
                                    assert(a[0] == states@[0]);
                                    assert forall|i: int, j: int| 0 <= i < j < a.len() implies item_set(#[trigger] a[i]) != item_set(#[trigger] a[j]) by {
                                        assert(a[i] == states@[i]);
                                        if j < states@.len() {
                                            assert(a[j] == states@[j]);
                                        }
                                    }
                                    assert forall|j: int| 1 <= j < a.len() implies #[trigger] g.goto_of_earlier(a, j) && item_set(a[j]) != Set::<Item>::empty() by {
                                        if j == states@.len() {
                                            assert(a[j] == next);
                                            assert(a[k as int] == states@[k as int]);
                                            assert(item_set(next).contains(next@[0]));
                                        } else {
                                            assert(a[j] == states@[j]);
                                            if g.reached_before(trans@, j) {
                                                let (s2, y) = choose|s2: int, y: int| 0 <= s2 < j && s2 < trans@.len() && 0 <= y < g.num_symbols() && #[trigger] trans@[s2]@[y] == Some(j as usize);
                                                assert(g.transition_ok(states@, s2, y, trans@[s2]@[y]));
                                                assert(a[s2] == states@[s2]);
                                            } else {
                                                let y = choose|y: int| 0 <= y < x && #[trigger] row@[y] == Some(j as usize);
                                                assert(g.transition_ok(states@, k as int, y, row@[y]));
                                                assert(a[k as int] == states@[k as int]);
                                            }
                                        }
                                    }
                                    assert(g.discovered(a));
                                    assert forall|b: Seq<Vec<Item>>, tb: Seq<Vec<Option<usize>>>| !#[trigger] g.collection_ok(b, tb) by {
                                        if g.collection_ok(b, tb) {
                                            lemma_no_more_states(g, a, b, tb);
                                        }
                                    }
                                }
                                return Err(TableError::TooManyStates);
                            }
                            states.push(next);
                            row.push(Some(states.len() - 1));
                            proof {
                                assert forall|s: int, y: int| 0 <= s < k && 0 <= y < nsym implies g.transition_ok(states@, s, y, #[trigger] trans@[s]@[y]) by {
                                    lemma_transition_grows(g, before, next, s, y, trans@[s]@[y]);
                                }
                                assert forall|y: int| 0 <= y < x implies g.transition_ok(states@, k as int, y, #[trigger] row_before[y]) by {
                                    lemma_transition_grows(g, before, next, k as int, y, row_before[y]);
                                }
                                assert(states@[k as int] == before[k as int]);
                            }
                        },
                    }
                }
                proof {
                    assert forall|y: int| 0 <= y < x + 1 implies g.transition_ok(states@, k as int, y, #[trigger] row@[y]) by {
                        if y < x {
                            assert(row@[y] == row_before[y]);
                        }
                    }
                    assert forall|j: int| 1 <= j < states@.len() implies #[trigger] g.reached_before(trans@, j) || (k < j && exists|y: int| 0 <= y < x + 1 && #[trigger] row@[y] == Some(j as usize)) by {
                        if j < before.len() {
                            if !g.reached_before(trans@, j) {
                                let y = choose|y: int| 0 <= y < x && #[trigger] row_before[y] == Some(j as usize);
                                assert(row@[y] == Some(j as usize));
                            }
                        } else {
                            assert(row@[x as int] == Some(j as usize));
                        }
                    }
                }
                x = x + 1;
            }
            let ghost trans_before = trans@;
            trans.push(row);
            proof {
                assert forall|s: int| 0 <= s < k + 1 implies (#[trigger] trans@[s])@.len() == nsym by {
                    if s < k {
                        assert(trans@[s] == trans_before[s]);
                    }
                }
                assert forall|s: int, y: int| 0 <= s < k + 1 && 0 <= y < nsym implies g.transition_ok(states@, s, y, #[trigger] trans@[s]@[y]) by {
                    if s < k {
                        assert(trans@[s] == trans_before[s]);
                    }
                }
                assert forall|j: int| 1 <= j < states@.len() implies #[trigger] g.reached_before(trans@, j) by {
                    if g.reached_before(trans_before, j) {
                        let (s, y) = choose|s: int, y: int| 0 <= s < j && s < trans_before.len() && 0 <= y < g.num_symbols() && #[trigger] trans_before[s]@[y] == Some(j as usize);
                        assert(trans@[s] == trans_before[s]);
                        assert(trans@[s]@[y] == Some(j as usize));
                    } else {
                        let y = choose|y: int| 0 <= y < nsym && #[trigger] row@[y] == Some(j as usize);
                        assert(trans@[k as int]@[y] == Some(j as usize));
                    }
                }
            }
            k = k + 1;
        }
        self.lr1_sets = states;
        self.transitions = trans;
        Ok(())
    }
}

impl Grammar {
    /// The action that item `it` of state `s` proposes on terminal `t`: a
    /// completed item reduces on its lookahead (the completed augmented
    /// production on the end marker accepts); an item with terminal `x` after
    /// the dot shifts on `x` to the goto target.
    pub open spec fn proposes(&self, trans: Seq<Vec<Option<usize>>>, s: int, it: Item, t: int, a: Action) -> bool {
        if it.dot == self.body(it.prod as int).len() {
            &&& t == it.lookahead
            &&& a == (if it.prod == 0 && it.lookahead == self.num_terminals() {
                Action::Accept
            } else {
                Action::Reduce(it.prod)
            })
        } else {
            match self.after_dot(it) {
                Some(Symbol::Terminal(x)) => t == x && trans[s]@[x as int] == Some(a->Shift_0) && a is Shift,
                _ => false,
            }
        }
    }

    pub open spec fn state_proposes(&self, states: Seq<Vec<Item>>, trans: Seq<Vec<Option<usize>>>, s: int, t: int, a: Action) -> bool {
        exists|i: int| 0 <= i < states[s]@.len() && #[trigger] self.proposes(trans, s, states[s]@[i], t, a)
    }

    /// `a` is proposed on terminal `t` by the first item of state `s`, in the
    /// state's order, that proposes anything on `t`.
    pub open spec fn first_proposal(&self, states: Seq<Vec<Item>>, trans: Seq<Vec<Option<usize>>>, s: int, t: int, a: Action) -> bool {
        exists|i: int| 0 <= i < states[s]@.len() && #[trigger] self.proposes(trans, s, states[s]@[i], t, a)
            && forall|i2: int, b: Action| 0 <= i2 < i ==> !#[trigger] self.proposes(trans, s, states[s]@[i2], t, b)
    }

    /// Each filled cell holds the first proposal made for it.
    pub open spec fn first_kept(&self, states: Seq<Vec<Item>>, trans: Seq<Vec<Option<usize>>>, action: Seq<Seq<Option<Action>>>) -> bool {
        forall|s: int, t: int|
            0 <= s < action.len() && 0 <= t < action[s].len() && #[trigger] action[s][t] is Some
                ==> self.first_proposal(states, trans, s, t, action[s][t]->0)
    }

    /// Item `i` of state `s` has had its proposal registered: the cell is
    /// filled, with that action or with another one and a recorded conflict.
    pub open spec fn registered(
        &self,
        states: Seq<Vec<Item>>,
        trans: Seq<Vec<Option<usize>>>,
        action: Seq<Seq<Option<Action>>>,
        conflicts: Seq<Conflict>,
        s: int,
        i: int,
    ) -> bool {
        forall|t: int, a: Action| #[trigger] self.proposes(trans, s, states[s]@[i], t, a) ==> {
            &&& action[s][t] is Some
            &&& (action[s][t] == Some(a) || conflicts.contains(
                Conflict { state: s as usize, terminal: t as usize, kept: action[s][t]->0, rejected: a },
            ))
        }
    }

    /// Every filled cell and every recorded conflict comes from a proposal.
    pub open spec fn table_justified(
        &self,
        states: Seq<Vec<Item>>,
        trans: Seq<Vec<Option<usize>>>,
        action: Seq<Seq<Option<Action>>>,
        conflicts: Seq<Conflict>,
    ) -> bool {
        &&& forall|s: int, t: int|
            0 <= s < action.len() && 0 <= t < action[s].len() && #[trigger] action[s][t] is Some
                ==> self.state_proposes(states, trans, s, t, action[s][t]->0)
        &&& forall|c: int| 0 <= c < conflicts.len() ==> {
            let k = #[trigger] conflicts[c];
            &&& k.state < action.len()
            &&& k.terminal < action[k.state as int].len()
            &&& action[k.state as int][k.terminal as int] == Some(k.kept)
            &&& k.kept != k.rejected
            &&& self.state_proposes(states, trans, k.state as int, k.terminal as int, k.rejected)
        }
    }

    /// The parsing tables of a canonical collection.
    pub open spec fn tables_ok(
        &self,
        states: Seq<Vec<Item>>,
        trans: Seq<Vec<Option<usize>>>,
        action: Seq<Seq<Option<Action>>>,
        goto_table: Seq<Seq<Option<usize>>>,
        conflicts: Seq<Conflict>,
    ) -> bool {
        &&& action.len() == states.len()
        &&& goto_table.len() == states.len()
        &&& forall|s: int| 0 <= s < states.len() ==> #[trigger] action[s].len() == self.num_terminals() + 1
        &&& forall|s: int| 0 <= s < states.len() ==> #[trigger] goto_table[s].len() == self.num_nonterminals()
        &&& forall|s: int, n: int| 0 <= s < states.len() && 0 <= n < self.num_nonterminals()
            ==> #[trigger] goto_table[s][n] == trans[s]@[self.num_terminals() + n]
        &&& self.table_justified(states, trans, action, conflicts)
        &&& self.first_kept(states, trans, action)
        &&& forall|s: int, i: int| 0 <= s < states.len() && 0 <= i < states[s]@.len()
            ==> #[trigger] self.registered(states, trans, action, conflicts, s, i)
    }
}

pub open spec fn action_rows(v: Seq<Vec<Option<Action>>>) -> Seq<Seq<Option<Action>>> {
    v.map_values(|row: Vec<Option<Action>>| row@)
}

pub open spec fn goto_rows(v: Seq<Vec<Option<usize>>>) -> Seq<Seq<Option<usize>>> {
    v.map_values(|row: Vec<Option<usize>>| row@)
}

fn set_action(table: &mut Vec<Vec<Option<Action>>>, s: usize, t: usize, a: Action)
    requires
        s < old(table)@.len(),
        t < old(table)@[s as int]@.len(),
    ensures
        final(table)@.len() == old(table)@.len(),
        action_rows(final(table)@) == action_rows(old(table)@).update(
            s as int,
            action_rows(old(table)@)[s as int].update(t as int, Some(a)),
        ),
{
    let mut row = copy_vec(&table[s]);
    row.set(t, Some(a));
    table.set(s, row);
    assert(action_rows(table@) =~= action_rows(old(table)@).update(
        s as int,
        action_rows(old(table)@)[s as int].update(t as int, Some(a)),
    ));
}

impl LR1Parser {
    /// Fills the action and goto tables from the canonical collection, going
    /// through each state's items in order. A second action proposed for a
    /// filled cell of the action table leaves the first in place and is
    /// recorded in `conflicts`.
    pub fn construct_parsing_table(&mut self, g: &Grammar)
        requires
            g.wf(),
            g.collection_ok(old(self).lr1_sets@, old(self).transitions@),
        ensures
            final(self).lr1_sets@ == old(self).lr1_sets@,
            final(self).transitions@ == old(self).transitions@,
            g.tables_ok(
                final(self).lr1_sets@,
                final(self).transitions@,
                action_rows(final(self).action_table@),
                goto_rows(final(self).goto_table@),
                final(self).conflicts@,
            ),
    {
        let ghost states = self.lr1_sets@;
        let ghost trans = self.transitions@;
        let ns = self.lr1_sets.len();
        let nt = g.token_list.len();
        let nn = g.nonterminals.len();
        let mut gotos: Vec<Vec<Option<usize>>> = Vec::new();
        let mut action: Vec<Vec<Option<Action>>> = Vec::new();
        let mut s: usize = 0;
        while s < ns
            invariant
                g.wf(),
                g.collection_ok(states, trans),
                self.lr1_sets@ == states,
                self.transitions@ == trans,
                ns == states.len(),
                nt == g.num_terminals(),
                nn == g.num_nonterminals(),
                s <= ns,
                gotos@.len() == s,
                action@.len() == s,
                forall|q: int| 0 <= q < s ==> #[trigger] action@[q]@.len() == nt + 1,
                forall|q: int, t: int| 0 <= q < s && 0 <= t < action@[q]@.len() ==> #[trigger] action@[q]@[t] is None,
                forall|q: int| 0 <= q < s ==> #[trigger] gotos@[q]@.len() == nn,
                forall|q: int, n: int| 0 <= q < s && 0 <= n < nn ==> #[trigger] gotos@[q]@[n] == trans[q]@[nt + n],
            decreases ns - s,
        {
            let mut row: Vec<Option<usize>> = Vec::new();
            let mut n: usize = 0;
            while n < nn
                invariant
                    g.collection_ok(states, trans),
                    self.transitions@ == trans,
                    ns == states.len(),
                    nt == g.num_terminals(),
                    nn == g.num_nonterminals(),
                    s < ns,
                    n <= nn,
                    nt + nn + 2 < usize::MAX,
                    row@.len() == n,
                    forall|m: int| 0 <= m < n ==> #[trigger] row@[m] == trans[s as int]@[nt + m],
                decreases nn - n,
            {
                row.push(self.transitions[s][nt + n]);
                n = n + 1;
            }
            gotos.push(row);
            let mut empty: Vec<Option<Action>> = Vec::new();
            let mut t: usize = 0;
            while t <= nt
                invariant
                    nt + 2 < usize::MAX,
                    t <= nt + 1,
                    empty@.len() == t,
                    forall|u: int| 0 <= u < t ==> #[trigger] empty@[u] is None,
                decreases nt + 1 - t,
            {
                empty.push(None);
                t = t + 1;
            }
            action.push(empty);
            s = s + 1;
        }
        let mut conflicts: Vec<Conflict> = Vec::new();
        proof {
            let rows = action_rows(action@);
            assert forall|q: int, t: int| 0 <= q < rows.len() && 0 <= t < rows[q].len() && #[trigger] rows[q][t] is Some
                implies g.state_proposes(states, trans, q, t, rows[q][t]->0) by {
                assert(rows[q] == action@[q]@);
            }
            assert forall|q: int, t: int| 0 <= q < rows.len() && 0 <= t < rows[q].len() && #[trigger] rows[q][t] is Some
                implies g.first_proposal(states, trans, q, t, rows[q][t]->0) by {
                assert(rows[q] == action@[q]@);
            }
        }
        let mut s: usize = 0;
        while s < ns
            invariant
                g.wf(),
                g.collection_ok(states, trans),
                self.lr1_sets@ == states,
                self.transitions@ == trans,
                ns == states.len(),
                nt == g.num_terminals(),
                s <= ns,
                action@.len() == ns,
                forall|q: int| 0 <= q < ns ==> #[trigger] action_rows(action@)[q].len() == nt + 1,
                g.table_justified(states, trans, action_rows(action@), conflicts@),
                g.first_kept(states, trans, action_rows(action@)),
                forall|q: int, i: int| 0 <= q < s && 0 <= i < states[q]@.len()
                    ==> #[trigger] g.registered(states, trans, action_rows(action@), conflicts@, q, i),
            decreases ns - s,
        {
            let mut i: usize = 0;
            while i < self.lr1_sets[s].len()
                invariant
                    g.wf(),
                    g.collection_ok(states, trans),
                    self.lr1_sets@ == states,
                    self.transitions@ == trans,
                    ns == states.len(),
                    nt == g.num_terminals(),
                    s < ns,
                    i <= states[s as int]@.len(),
                    action@.len() == ns,
                    forall|q: int| 0 <= q < ns ==> #[trigger] action_rows(action@)[q].len() == nt + 1,
                    g.table_justified(states, trans, action_rows(action@), conflicts@),
                    g.first_kept(states, trans, action_rows(action@)),
                    forall|q: int, j: int| ((0 <= q < s && 0 <= j < states[q]@.len()) || (q == s && 0 <= j < i))
                        ==> #[trigger] g.registered(states, trans, action_rows(action@), conflicts@, q, j),
                decreases states[s as int]@.len() - i,
            {
                let it = self.lr1_sets[s][i];
                proof {
                    assert(g.item_ok(it));
                }
                let len = g.productions[it.prod].body.len();
                let mut proposal: Option<(usize, Action)> = None;
                if it.dot == len {
                    if it.prod == 0 && it.lookahead == nt {
                        proposal = Some((it.lookahead, Action::Accept));
                    } else {
                        proposal = Some((it.lookahead, Action::Reduce(it.prod)));
                    }
                } else {
                    match g.productions[it.prod].body[it.dot] {
                        Symbol::Terminal(x) => {
                            proof {
                                assert(g.symbol_ok(g.body(it.prod as int)[it.dot as int]));
                                assert(trans[s as int]@.len() == g.num_symbols());
                            }
                            match self.transitions[s][x] {
                                Some(j) => {
                                    proposal = Some((x, Action::Shift(j)));
                                },
                                None => {},
                            }
                        },
                        Symbol::NonTerminal(_) => {},
                    }
                }
                proof {
                    assert forall|t: int, a: Action| #[trigger] g.proposes(trans, s as int, it, t, a) implies proposal == Some((t as usize, a)) by {
                    }
                }
                let ghost rows0 = action_rows(action@);
                let ghost conf0 = conflicts@;
                match proposal {
                    Some((t, a)) => {
                        proof {
                            assert(g.proposes(trans, s as int, it, t as int, a));
                            assert(states[s as int]@[i as int] == it);
                            assert(g.state_proposes(states, trans, s as int, t as int, a));
                            assert(action_rows(action@)[s as int] == action@[s as int]@);
                        }
                        match action[s][t] {
                            None => {
                                set_action(&mut action, s, t, a);
                                proof {
                                    let rows = action_rows(action@);
                                    assert forall|q: int| 0 <= q < ns implies #[trigger] rows[q].len() == nt + 1 by {
                                        if q != s { assert(rows[q] == rows0[q]); }
                                    }
                                    assert forall|q: int, u: int| 0 <= q < rows.len() && 0 <= u < rows[q].len() && #[trigger] rows[q][u] is Some
                                        implies g.state_proposes(states, trans, q, u, rows[q][u]->0) by {
                                        if q != s || u != t {
                                            assert(rows[q][u] == rows0[q][u]);
                                        }
                                    }
                                    assert forall|i2: int, b: Action| 0 <= i2 < i implies !#[trigger] g.proposes(trans, s as int, states[s as int]@[i2], t as int, b) by {
                                        if g.proposes(trans, s as int, states[s as int]@[i2], t as int, b) {
                                            assert(g.registered(states, trans, rows0, conf0, s as int, i2));
                                        }
                                    }
                                    assert(g.first_proposal(states, trans, s as int, t as int, a));
                                    assert forall|q: int, u: int| 0 <= q < rows.len() && 0 <= u < rows[q].len() && #[trigger] rows[q][u] is Some
                                        implies g.first_proposal(states, trans, q, u, rows[q][u]->0) by {
                                        if q != s || u != t {
                                            assert(rows[q][u] == rows0[q][u]);
                                        }
                                    }
                                    assert forall|c: int| 0 <= c < conf0.len() implies {
                                        let k = #[trigger] conf0[c];
                                        &&& k.state < rows.len()
                                        &&& k.terminal < rows[k.state as int].len()
                                        &&& rows[k.state as int][k.terminal as int] == Some(k.kept)
                                        &&& k.kept != k.rejected
                                        &&& g.state_proposes(states, trans, k.state as int, k.terminal as int, k.rejected)
                                    } by {
                                        let k = conf0[c];
                                        assert(rows0[k.state as int][k.terminal as int] == Some(k.kept));
                                    }
                                    assert forall|q: int, j: int| ((0 <= q < s && 0 <= j < states[q]@.len()) || (q == s && 0 <= j < i + 1))
                                        implies #[trigger] g.registered(states, trans, rows, conf0, q, j) by {
                                        if q == s && j == i {
                                        } else {
                                            assert(g.registered(states, trans, rows0, conf0, q, j));
                                            assert forall|u: int, b: Action| #[trigger] g.proposes(trans, q, states[q]@[j], u, b) implies {
                                                &&& rows[q][u] is Some
                                                &&& (rows[q][u] == Some(b) || conf0.contains(
                                                    Conflict { state: q as usize, terminal: u as usize, kept: rows[q][u]->0, rejected: b },
                                                ))
                                            } by {
                                                assert(rows0[q][u] is Some);
                                                assert(rows[q][u] == rows0[q][u]);
                                            }
                                        }
                                    }
                                }
                            },
                            Some(b) => {
                                if b != a {
                                    let c = Conflict { state: s, terminal: t, kept: b, rejected: a };
                                    conflicts.push(c);
                                    proof {
                                        let rows = action_rows(action@);
                                        assert forall|c2: int| 0 <= c2 < conflicts@.len() implies {
                                            let k = #[trigger] conflicts@[c2];
                                            &&& k.state < rows.len()
                                            &&& k.terminal < rows[k.state as int].len()
                                            &&& rows[k.state as int][k.terminal as int] == Some(k.kept)
                                            &&& k.kept != k.rejected
                                            &&& g.state_proposes(states, trans, k.state as int, k.terminal as int, k.rejected)
                                        } by {
                                            if c2 < conf0.len() {
                                                assert(conflicts@[c2] == conf0[c2]);
                                            }
                                        }
                                        assert(conflicts@[conflicts@.len() - 1] == c);
                                        assert forall|q: int, j: int| ((0 <= q < s && 0 <= j < states[q]@.len()) || (q == s && 0 <= j < i + 1))
                                            implies #[trigger] g.registered(states, trans, rows, conflicts@, q, j) by {
                                            if q == s && j == i {
                                            } else {
                                                assert(g.registered(states, trans, rows, conf0, q, j));
                                                assert forall|u: int, e: Action| #[trigger] g.proposes(trans, q, states[q]@[j], u, e) implies {
                                                    &&& rows[q][u] is Some
                                                    &&& (rows[q][u] == Some(e) || conflicts@.contains(
                                                        Conflict { state: q as usize, terminal: u as usize, kept: rows[q][u]->0, rejected: e },
                                                    ))
                                                } by {
                                                    if rows[q][u] != Some(e) {
                                                        lemma_push_keeps_conflict(conf0, c, Conflict { state: q as usize, terminal: u as usize, kept: rows[q][u]->0, rejected: e });
                                                    }
                                                }
                                            }
                                        }
                                    }
                                }
                            },
                        }
                    },
                    None => {},
                }
                i = i + 1;
            }
            s = s + 1;
        }
        self.action_table = action;
        self.goto_table = gotos;
        self.conflicts = conflicts;
        proof {
            let gr = goto_rows(self.goto_table@);
            assert forall|q: int| 0 <= q < ns implies #[trigger] gr[q].len() == g.num_nonterminals() by {
                assert(gr[q] == self.goto_table@[q]@);
            }
            assert forall|q: int, n: int| 0 <= q < ns && 0 <= n < g.num_nonterminals()
                implies #[trigger] gr[q][n] == trans[q]@[g.num_terminals() + n] by {
                assert(gr[q] == self.goto_table@[q]@);
            }
        }
    }
}

proof fn lemma_push_keeps_conflict(s: Seq<Conflict>, x: Conflict, y: Conflict)
    requires
        s.contains(y),
    ensures
        s.push(x).contains(y),
{
    let j = choose|j: int| 0 <= j < s.len() && s[j] == y;
    assert(s.push(x)[j] == y);
}

// ---------------------------------------------------------------------------
// Parse trees and the shift-reduce driver
// ---------------------------------------------------------------------------

/// A parse tree: a leaf holds a matched token; an inner node holds the head
/// of the production it was reduced by and the nodes of the body, in order.
#[derive(Debug)]
pub enum TreeNode {
    Leaf(Token),
    Node { head: String, production: usize, children: Vec<TreeNode> },
}

/// The tokens at the leaves of a tree, left to right.
pub open spec fn leaves(t: TreeNode) -> Seq<Token>
    decreases t,
{
    match t {
        TreeNode::Leaf(tok) => seq![tok],
        TreeNode::Node { children, .. } => leaves_of(children@),
    }
}

/// The leaves of a sequence of trees, left to right.
pub open spec fn leaves_of(ts: Seq<TreeNode>) -> Seq<Token>
    decreases ts,
{
    if ts.len() == 0 {
        seq![]
    } else {
        leaves(ts[0]) + leaves_of(ts.subrange(1, ts.len() as int))
    }
}

proof fn lemma_leaves_of_append(a: Seq<TreeNode>, b: Seq<TreeNode>)
    ensures
        leaves_of(a + b) == leaves_of(a) + leaves_of(b),
    decreases a.len(),
{
    if a.len() == 0 {
        assert(a + b =~= b);
        assert(leaves_of(a) =~= Seq::<Token>::empty());
        assert(leaves_of(a) + leaves_of(b) =~= leaves_of(b));
    } else {
        lemma_leaves_of_append(a.subrange(1, a.len() as int), b);
        assert((a + b).subrange(1, (a + b).len() as int) =~= a.subrange(1, a.len() as int) + b);
        assert((a + b)[0] == a[0]);
        assert(leaves_of(a + b) =~= leaves(a[0]) + leaves_of(a.subrange(1, a.len() as int) + b));
    }
}

proof fn lemma_leaves_of_single(t: TreeNode)
    ensures
        leaves_of(seq![t]) == leaves(t),
{
    assert(seq![t].subrange(1, 1) =~= Seq::<TreeNode>::empty());
    assert(leaves_of(seq![t].subrange(1, 1)) =~= Seq::<Token>::empty());
    assert(leaves(t) + Seq::<Token>::empty() =~= leaves(t));
}

/// A parse tree as a mathematical value: the labels are the head names.
pub enum ParseTree {
    Leaf(Token),
    Node(Seq<char>, usize, Seq<ParseTree>),
}

/// The value a tree stands for.
pub open spec fn tree_view(t: TreeNode) -> ParseTree
    decreases t,
{
    match t {
        TreeNode::Leaf(tok) => ParseTree::Leaf(tok),
        TreeNode::Node { head, production, children } => ParseTree::Node(
            head@,
            production,
            views_of(children@),
        ),
    }
}

pub open spec fn views_of(ts: Seq<TreeNode>) -> Seq<ParseTree>
    decreases ts,
{
    if ts.len() == 0 {
        seq![]
    } else {
        seq![tree_view(ts[0])] + views_of(ts.subrange(1, ts.len() as int))
    }
}

proof fn lemma_views_of_append(a: Seq<TreeNode>, b: Seq<TreeNode>)
    ensures
        views_of(a + b) == views_of(a) + views_of(b),
        views_of(a).len() == a.len(),
    decreases a.len(),
{
    if a.len() == 0 {
        assert(a + b =~= b);
        assert(views_of(a) + views_of(b) =~= views_of(b));
    } else {
        lemma_views_of_append(a.subrange(1, a.len() as int), b);
        assert((a + b).subrange(1, (a + b).len() as int) =~= a.subrange(1, a.len() as int) + b);
        assert((a + b)[0] == a[0]);
        assert(views_of(a + b) =~= seq![tree_view(a[0])] + views_of(a.subrange(1, a.len() as int) + b));
    }
}

proof fn lemma_views_of_single(t: TreeNode)
    ensures
        views_of(seq![t]) == seq![tree_view(t)],
{
    assert(seq![t].subrange(1, 1) =~= Seq::<TreeNode>::empty());
    assert(views_of(seq![t].subrange(1, 1)) =~= Seq::<ParseTree>::empty());
    assert(seq![tree_view(t)] + Seq::<ParseTree>::empty() =~= seq![tree_view(t)]);
}

/// Where a run of the shift-reduce driver stands: still running with its
/// state stack, node stack and input position, or finished.
pub enum DriverState {
    Running(Seq<usize>, Seq<ParseTree>, int),
    Accepted(ParseTree),
    /// No action for this input position and state.
    Rejected(int, usize),
    /// The step budget ran out at this input position and state.
    Exhausted(int, usize),
}

/// The index of the first name in `names` from `i` on that spells `w`.
pub open spec fn name_index_from(names: Seq<String>, w: Seq<char>, i: int) -> Option<int>
    decreases names.len() - i,
{
    if i < 0 || i >= names.len() {
        None
    } else if names[i]@ == w {
        Some(i)
    } else {
        name_index_from(names, w, i + 1)
    }
}

/// The grammar name of a token class that stands for many spellings.
pub open spec fn class_name(kind: TokenKind) -> Option<Seq<char>> {
    match kind {
        TokenKind::Identifier => Some("Ident"@),
        TokenKind::Number(Numbers::Integer) => Some("IntConst"@),
        TokenKind::Number(_) => Some("FloatConst"@),
        _ => None,
    }
}

/// The terminal that an input token matches: the terminal named by its
/// text, or else the one named by its class (`Ident`, `IntConst`, `FloatConst`).
pub open spec fn terminal_of(g: &Grammar, tok: Token) -> Option<int> {
    match name_index_from(g.token_list@, tok.value@, 0) {
        Some(i) => Some(i),
        None => match tok.token_type {
            TokenType::Terminal(kind) => match class_name(kind) {
                Some(c) => name_index_from(g.token_list@, c, 0),
                None => None,
            },
            TokenType::NotTerminal => None,
        },
    }
}

proof fn lemma_name_index_bounds(names: Seq<String>, w: Seq<char>, i: int)
    ensures
        name_index_from(names, w, i) matches Some(k) ==> 0 <= i <= k < names.len(),
    decreases names.len() - i,
{
    if 0 <= i < names.len() && names[i]@ != w {
        lemma_name_index_bounds(names, w, i + 1);
    }
}

fn find_name(names: &Vec<String>, w: &str) -> (r: Option<usize>)
    ensures
        r matches Some(k) ==> name_index_from(names@, w@, 0) == Some(k as int) && k < names@.len(),
        r is None ==> name_index_from(names@, w@, 0) is None,
{
    let mut i: usize = 0;
    while i < names.len()
        invariant
            i <= names@.len(),
            name_index_from(names@, w@, i as int) == name_index_from(names@, w@, 0),
        decreases names@.len() - i,
    {
        if str_equals(names[i].as_str(), w) {
            return Some(i);
        }
        i = i + 1;
    }
    None
}

fn terminal_index(g: &Grammar, tok: &Token) -> (r: Option<usize>)
    ensures
        r matches Some(k) ==> terminal_of(g, *tok) == Some(k as int) && k < g.num_terminals(),
        r is None ==> terminal_of(g, *tok) is None,
{
    match find_name(&g.token_list, tok.value.as_str()) {
        Some(i) => Some(i),
        None => match tok.token_type {
            TokenType::Terminal(TokenKind::Identifier) => find_name(&g.token_list, "Ident"),
            TokenType::Terminal(TokenKind::Number(Numbers::Integer)) => find_name(&g.token_list, "IntConst"),
            TokenType::Terminal(TokenKind::Number(_)) => find_name(&g.token_list, "FloatConst"),
            _ => None,
        },
    }
}

/// The parse stopped at `token` in parser state `state`: the action table
/// has no entry there. `exhausted` is set instead when the driver gave up
/// after `usize::MAX` steps without deciding.
#[derive(Debug)]
pub struct SyntaxError {
    pub token: Token,
    pub state: usize,
    pub exhausted: bool,
}

/// The end-of-input marker token that follows the caller's tokens.
pub open spec fn end_marker(t: Token) -> bool {
    t.token_type == TokenType::Terminal(TokenKind::End) && t.value@ == "#"@ && t.pos is None
}

fn end_token() -> (t: Token)
    ensures
        end_marker(t),
{
    Token::new(TokenType::Terminal(TokenKind::End), "#".to_owned(), None)
}

impl Grammar {
    /// Expansion only adds items with the dot at the start, so an item of a
    /// closure with the dot further on belongs to the kernel.
    proof fn lemma_closure_dot_moved(&self, kernel: Set<Item>, it: Item, k: nat)
        requires
            self.derives_within(kernel, it, k),
            it.dot >= 1,
        ensures
            kernel.contains(it),
        decreases k,
    {
        if k > 0 {
            if self.derives_within(kernel, it, (k - 1) as nat) {
                self.lemma_closure_dot_moved(kernel, it, (k - 1) as nat);
            } else {
                let from = choose|from: Item|
                    self.derives_within(kernel, from, (k - 1) as nat) && #[trigger] self.expands_to(from, it);
                assert(it.dot == 0);
            }
        }
    }

    /// An item of a closure outside its kernel is an expansion of another item of the closure.
    proof fn lemma_closure_expanded(&self, kernel: Set<Item>, it: Item, k: nat)
        requires
            self.derives_within(kernel, it, k),
            !kernel.contains(it),
        ensures
            exists|from: Item| self.in_closure(kernel, from) && #[trigger] self.expands_to(from, it),
        decreases k,
    {
        if k > 0 {
            if self.derives_within(kernel, it, (k - 1) as nat) {
                self.lemma_closure_expanded(kernel, it, (k - 1) as nat);
            } else {
                let from = choose|from: Item|
                    self.derives_within(kernel, from, (k - 1) as nat) && #[trigger] self.expands_to(from, it);
                assert(self.in_closure(kernel, from));
            }
        }
    }
}

impl LR1Parser {
    /// The parser's state stack is a path of goto transitions from state 0:
    /// `syms[i]` is the symbol index that leads from `stack[i]` to `stack[i + 1]`.
    pub open spec fn stack_ok(&self, g: &Grammar, stack: Seq<usize>, syms: Seq<int>) -> bool {
        &&& stack.len() == syms.len() + 1
        &&& stack[0] == 0
        &&& forall|k: int| 0 <= k < stack.len() ==> #[trigger] stack[k] < self.lr1_sets@.len()
        &&& forall|i: int| 0 <= i < syms.len() ==> 0 <= #[trigger] syms[i] < g.num_symbols()
            && self.transitions@[stack[i] as int]@[syms[i]] == Some(stack[i + 1])
    }

    /// The state at stack position `m` holds the same items as the goto of
    /// the state below it, or is the start state at the bottom.
    proof fn lemma_stack_state(&self, g: &Grammar, stack: Seq<usize>, syms: Seq<int>, m: int)
        requires
            self.ready(g),
            self.stack_ok(g, stack, syms),
            0 <= m < stack.len(),
        ensures
            m == 0 ==> item_set(self.lr1_sets@[stack[m] as int]) == g.start_set(),
            m >= 1 ==> item_set(self.lr1_sets@[stack[m] as int]) == g.goto_of(
                item_set(self.lr1_sets@[stack[m - 1] as int]),
                g.symbol_at(syms[m - 1]),
            ),
    {
        if m >= 1 {
            let s = stack[m - 1] as int;
            let x = syms[m - 1];
            assert(0 <= x < g.num_symbols());
            assert(g.transition_ok(self.lr1_sets@, s, x, self.transitions@[s]@[x]));
        }
    }

    /// An item with the dot after the start at stack position `m` came from
    /// the item one step back at position `m - 1`, over the symbol on the stack.
    proof fn lemma_walk_back(&self, g: &Grammar, stack: Seq<usize>, syms: Seq<int>, m: int, it: Item)
        requires
            self.ready(g),
            self.stack_ok(g, stack, syms),
            0 <= m < stack.len(),
            item_set(self.lr1_sets@[stack[m] as int]).contains(it),
            it.dot >= 1,
        ensures
            m >= 1,
            item_set(self.lr1_sets@[stack[m - 1] as int]).contains(
                Item { prod: it.prod, dot: (it.dot - 1) as usize, lookahead: it.lookahead },
            ),
            g.symbol_at(syms[m - 1]) == g.body(it.prod as int)[it.dot - 1],
    {
        self.lemma_stack_state(g, stack, syms, m);
        if m == 0 {
            let k0 = set![Item { prod: 0, dot: 0, lookahead: g.num_terminals() as usize }];
            assert(g.closure_of(k0).contains(it));
            let k = choose|k: nat| g.derives_within(k0, it, k);
            g.lemma_closure_dot_moved(k0, it, k);
        } else {
            let prev = item_set(self.lr1_sets@[stack[m - 1] as int]);
            let x = g.symbol_at(syms[m - 1]);
            let gk = g.goto_kernel(prev, x);
            assert(g.closure_of(gk).contains(it));
            let k = choose|k: nat| g.derives_within(gk, it, k);
            g.lemma_closure_dot_moved(gk, it, k);
            let from = choose|from: Item| prev.contains(from) && #[trigger] g.after_dot(from) == Some(x) && it == advanced(from);
            let below = self.lr1_sets@[stack[m - 1] as int]@;
            assert(below.contains(from));
            let j = choose|j: int| 0 <= j < below.len() && below[j] == from;
            assert(g.item_ok(below[j]));
            assert(from == Item { prod: it.prod, dot: (it.dot - 1) as usize, lookahead: it.lookahead });
        }
    }

    /// Walking an item back over its whole prefix: the item with the dot at
    /// the start sits `it.dot` positions lower on the stack.
    proof fn lemma_walk_back_all(&self, g: &Grammar, stack: Seq<usize>, syms: Seq<int>, m: int, it: Item, i: int)
        requires
            self.ready(g),
            self.stack_ok(g, stack, syms),
            0 <= m < stack.len(),
            item_set(self.lr1_sets@[stack[m] as int]).contains(it),
            0 <= i <= it.dot,
        ensures
            m >= i,
            item_set(self.lr1_sets@[stack[m - i] as int]).contains(
                Item { prod: it.prod, dot: (it.dot - i) as usize, lookahead: it.lookahead },
            ),
        decreases i,
    {
        if i > 0 {
            self.lemma_walk_back_all(g, stack, syms, m, it, i - 1);
            let mid = Item { prod: it.prod, dot: (it.dot - (i - 1)) as usize, lookahead: it.lookahead };
            self.lemma_walk_back(g, stack, syms, m - (i - 1), mid);
            assert(Item { prod: mid.prod, dot: (mid.dot - 1) as usize, lookahead: mid.lookahead } == Item {
                prod: it.prod,
                dot: (it.dot - i) as usize,
                lookahead: it.lookahead,
            });
        }
    }

    /// An item of the augmented production with the dot at the start occurs
    /// only at the bottom of the stack, with the end marker as lookahead.
    proof fn lemma_start_item_at_bottom(&self, g: &Grammar, stack: Seq<usize>, syms: Seq<int>, m: int, la: usize)
        requires
            self.ready(g),
            self.stack_ok(g, stack, syms),
            0 <= m < stack.len(),
            item_set(self.lr1_sets@[stack[m] as int]).contains(Item { prod: 0, dot: 0, lookahead: la }),
        ensures
            m == 0,
            la == g.num_terminals(),
    {
        let it = Item { prod: 0, dot: 0, lookahead: la };
        let here = self.lr1_sets@[stack[m] as int];
        self.lemma_stack_state(g, stack, syms, m);
        let kernel = if m == 0 {
            set![Item { prod: 0, dot: 0, lookahead: g.num_terminals() as usize }]
        } else {
            g.goto_kernel(item_set(self.lr1_sets@[stack[m - 1] as int]), g.symbol_at(syms[m - 1]))
        };
        assert(g.closure_of(kernel).contains(it));
        let k = choose|k: nat| g.derives_within(kernel, it, k);
        if !kernel.contains(it) {
            g.lemma_closure_expanded(kernel, it, k);
            let from = choose|from: Item| g.in_closure(kernel, from) && #[trigger] g.expands_to(from, it);
            assert(item_set(here).contains(from));
            let j = choose|j: int| 0 <= j < here@.len() && here@[j] == from;
            assert(g.item_ok(here@[j]));
            assert(g.body(from.prod as int)[from.dot as int] != Symbol::NonTerminal(0));
        } else if m >= 1 {
            let from = choose|from: Item| item_set(self.lr1_sets@[stack[m - 1] as int]).contains(from)
                && #[trigger] g.after_dot(from) == Some(g.symbol_at(syms[m - 1])) && it == advanced(from);
        }
    }

    /// A nonterminal item `[B -> · γ, b]` of a state on the stack has been
    /// expanded from an item with `B` after the dot, so the state has a goto on `B`.
    proof fn lemma_goto_on_head(&self, g: &Grammar, stack: Seq<usize>, syms: Seq<int>, m: int, it: Item)
        requires
            self.ready(g),
            self.stack_ok(g, stack, syms),
            0 <= m < stack.len(),
            item_set(self.lr1_sets@[stack[m] as int]).contains(it),
            it.dot == 0,
            it.prod != 0,
        ensures
            self.transitions@[stack[m] as int]@[g.num_terminals() + g.head(it.prod as int)] is Some,
    {
        let here = self.lr1_sets@[stack[m] as int];
        self.lemma_stack_state(g, stack, syms, m);
        let kernel = if m == 0 {
            set![Item { prod: 0, dot: 0, lookahead: g.num_terminals() as usize }]
        } else {
            g.goto_kernel(item_set(self.lr1_sets@[stack[m - 1] as int]), g.symbol_at(syms[m - 1]))
        };
        assert(g.closure_of(kernel).contains(it));
        let k = choose|k: nat| g.derives_within(kernel, it, k);
        if m >= 1 && kernel.contains(it) {
            let from = choose|from: Item| item_set(self.lr1_sets@[stack[m - 1] as int]).contains(from)
                && #[trigger] g.after_dot(from) == Some(g.symbol_at(syms[m - 1])) && it == advanced(from);
        }
        g.lemma_closure_expanded(kernel, it, k);
        let from = choose|from: Item| g.in_closure(kernel, from) && #[trigger] g.expands_to(from, it);
        assert(item_set(here).contains(from));
        let j = choose|j: int| 0 <= j < here@.len() && here@[j] == from;
        assert(g.item_ok(here@[j]));
        let h = g.head(it.prod as int);
        assert(g.item_ok(it)) by {
            let j2 = choose|j2: int| 0 <= j2 < here@.len() && here@[j2] == it;
            assert(g.item_ok(here@[j2]));
        }
        let x = g.num_terminals() + h;
        assert(g.symbol_at(x) == Symbol::NonTerminal(h as usize));
        let gk = g.goto_kernel(item_set(here), Symbol::NonTerminal(h as usize));
        assert(gk.contains(advanced(from)));
        g.lemma_kernel_in_closure(gk, advanced(from));
        assert(g.goto_of(item_set(here), g.symbol_at(x)).contains(advanced(from)));
        assert(g.transition_ok(self.lr1_sets@, stack[m] as int, x, self.transitions@[stack[m] as int]@[x]));
    }
}

/// Takes the current input token off `rest` (the remaining input, last
/// token first), or makes the end marker when none is left.
fn current_token(rest: &mut Vec<Token>, Ghost(input): Ghost<Seq<Token>>) -> (t: Token)
    requires
        old(rest)@.len() <= input.len(),
        forall|k: int| 0 <= k < old(rest)@.len() ==> #[trigger] old(rest)@[k] == input[input.len() - 1 - k],
    ensures
        old(rest)@.len() > 0 ==> t == input[input.len() - old(rest)@.len()],
        old(rest)@.len() == 0 ==> end_marker(t),
{
    let ghost len = rest@.len();
    match rest.pop() {
        Some(t) => {
            proof {
                assert(t == input[input.len() - 1 - (len - 1)]);
            }
            t
        },
        None => end_token(),
    }
}

impl LR1Parser {
    /// The tables of `g` are in place.
    pub open spec fn ready(&self, g: &Grammar) -> bool {
        &&& g.wf()
        &&& g.collection_ok(self.lr1_sets@, self.transitions@)
        &&& g.tables_ok(
            self.lr1_sets@,
            self.transitions@,
            action_rows(self.action_table@),
            goto_rows(self.goto_table@),
            self.conflicts@,
        )
    }

    /// The parse may stop at input position `k` (the end marker when `k` is
    /// the number of tokens) in state `e.state`: the action table has no
    /// entry for that state and that token's terminal.
    pub open spec fn stops_at(&self, g: &Grammar, tokens: Seq<Token>, k: int, e: SyntaxError) -> bool {
        if k < tokens.len() {
            &&& e.token == tokens[k]
            &&& match terminal_of(g, tokens[k]) {
                Some(t) => action_rows(self.action_table@)[e.state as int][t] is None,
                None => true,
            }
        } else {
            &&& end_marker(e.token)
            &&& action_rows(self.action_table@)[e.state as int][g.num_terminals()] is None
        }
    }

    /// One step of the shift-reduce driver over `tokens` followed by the end
    /// marker, from state stack `stack`, node stack `nodes` and input position `pos`.
    pub open spec fn drive_step(&self, g: &Grammar, tokens: Seq<Token>, stack: Seq<usize>, nodes: Seq<ParseTree>, pos: int) -> DriverState {
        let top = stack.last();
        let la = if pos < tokens.len() {
            terminal_of(g, tokens[pos])
        } else {
            Some(g.num_terminals())
        };
        let act = match la {
            Some(t) => action_rows(self.action_table@)[top as int][t],
            None => None,
        };
        match act {
            None => DriverState::Rejected(pos, top),
            Some(Action::Shift(j)) => if pos < tokens.len() {
                DriverState::Running(stack.push(j), nodes.push(ParseTree::Leaf(tokens[pos])), pos + 1)
            } else {
                DriverState::Rejected(pos, top)
            },
            Some(Action::Reduce(p)) => {
                let k = g.body(p as int).len();
                let h = g.head(p as int);
                if k >= stack.len() || k > nodes.len() {
                    DriverState::Rejected(pos, top)
                } else {
                    let below = stack[stack.len() - 1 - k];
                    match goto_rows(self.goto_table@)[below as int][h] {
                        Some(j) => DriverState::Running(
                            stack.subrange(0, stack.len() - k).push(j),
                            nodes.subrange(0, nodes.len() - k).push(
                                ParseTree::Node(
                                    g.nonterminals@[h]@,
                                    p,
                                    nodes.subrange(nodes.len() - k, nodes.len() as int),
                                ),
                            ),
                            pos,
                        ),
                        None => DriverState::Rejected(pos, below),
                    }
                }
            },
            Some(Action::Accept) => if nodes.len() == 1 {
                DriverState::Accepted(nodes[0])
            } else {
                DriverState::Rejected(pos, top)
            },
        }
    }

    /// Runs the driver for at most `fuel` steps.
    pub open spec fn drive(&self, g: &Grammar, tokens: Seq<Token>, st: DriverState, fuel: nat) -> DriverState
        decreases fuel,
    {
        match st {
            DriverState::Running(stack, nodes, pos) => if fuel == 0 {
                DriverState::Exhausted(pos, stack.last())
            } else {
                self.drive(g, tokens, self.drive_step(g, tokens, stack, nodes, pos), (fuel - 1) as nat)
            },
            _ => st,
        }
    }

    /// The outcome of the driver on `tokens`: from state 0 with no nodes,
    /// for at most `usize::MAX` steps.
    pub open spec fn parse_outcome(&self, g: &Grammar, tokens: Seq<Token>) -> DriverState {
        self.drive(g, tokens, DriverState::Running(seq![0usize], seq![], 0), usize::MAX as nat)
    }

    /// Runs the shift-reduce driver over `tokens` followed by the end
    /// marker. Shift pushes a leaf for the current token; reduce by
    /// `A -> β` replaces the top `|β|` nodes with a node for `A` holding
    /// them in order; accept returns the one node left. The result is the
    /// outcome of `parse_outcome`: the accepted tree, or the input position
    /// and state where the table has no action (or where the step budget ran
    /// out). An accepted tree's leaves are the input tokens, in order.
    #[verifier::rlimit(60)]
    #[verifier::spinoff_prover]
    pub fn construct_tree(&self, g: &Grammar, tokens: Vec<Token>) -> (r: Result<TreeNode, SyntaxError>)
        requires
            self.ready(g),
        ensures
            r matches Ok(tree) ==> self.parse_outcome(g, tokens@) == DriverState::Accepted(tree_view(tree)),
            r matches Ok(tree) ==> leaves(tree) == tokens@,
            r matches Err(e) ==> e.state < self.lr1_sets@.len() && match self.parse_outcome(g, tokens@) {
                DriverState::Rejected(pos, state) => {
                    &&& !e.exhausted
                    &&& e.state == state
                    &&& 0 <= pos <= tokens@.len()
                    &&& self.stops_at(g, tokens@, pos, e)
                },
                DriverState::Exhausted(pos, state) => {
                    &&& e.exhausted
                    &&& e.state == state
                    &&& 0 <= pos <= tokens@.len()
                    &&& (pos < tokens@.len() ==> e.token == tokens@[pos])
                    &&& (pos == tokens@.len() ==> end_marker(e.token))
                },
                _ => false,
            },
    {
        let ghost input = tokens@;
        let n = tokens.len();
        let mut pending = tokens;
        let mut rest: Vec<Token> = Vec::new();
        while pending.len() > 0
            invariant
                rest@.len() + pending@.len() == n,
                n == input.len(),
                pending@ == input.subrange(0, pending@.len() as int),
                forall|k: int| 0 <= k < rest@.len() ==> #[trigger] rest@[k] == input[n - 1 - k],
            decreases pending@.len(),
        {
            let t = pending.pop().unwrap();
            rest.push(t);
        }
        let nt = g.token_list.len();
        let mut stack: Vec<usize> = Vec::new();
        stack.push(0);
        let mut nodes: Vec<TreeNode> = Vec::new();
        let ghost mut syms: Seq<int> = seq![];
        let mut budget: usize = usize::MAX;
        proof {
            assert(leaves_of(nodes@) =~= Seq::<Token>::empty());
            assert(self.lr1_sets@.len() >= 1);
            assert(views_of(nodes@) =~= Seq::<ParseTree>::empty());
            assert(stack@ =~= seq![0usize]);
        }
        loop
            invariant
                self.ready(g),
                input == tokens@,
                nt == g.num_terminals(),
                n == input.len(),
                rest@.len() <= n,
                forall|k: int| 0 <= k < rest@.len() ==> #[trigger] rest@[k] == input[n - 1 - k],
                leaves_of(nodes@) == input.subrange(0, n - rest@.len()),
                stack@.len() == nodes@.len() + 1,
                self.stack_ok(g, stack@, syms),
                self.parse_outcome(g, tokens@) == self.drive(g, tokens@, DriverState::Running(stack@, views_of(nodes@), n - rest@.len()), budget as nat),
            decreases budget,
        {
            let top = stack[stack.len() - 1];
            let ghost at = n - rest@.len();
            let ghost cur_stack = stack@;
            let ghost cur_nodes = views_of(nodes@);
            let ghost next = self.drive_step(g, tokens@, cur_stack, cur_nodes, at);
            proof {
                lemma_views_of_append(nodes@, seq![]);
                if budget > 0 {
                    assert(self.drive(g, tokens@, DriverState::Running(cur_stack, cur_nodes, at), budget as nat)
                        == self.drive(g, tokens@, next, (budget - 1) as nat));
                }
                if at < n {
                    assert(rest@[rest@.len() - 1] == input[at]);
                }
            }
            if budget == 0 {
                let tok = current_token(&mut rest, Ghost(input));
                return Err(SyntaxError { token: tok, state: top, exhausted: true });
            }
            budget = budget - 1;
            let la: Option<usize> = if rest.len() == 0 {
                Some(nt)
            } else {
                terminal_index(g, &rest[rest.len() - 1])
            };
            proof {
                if la is Some {
                    assert(la->0 <= nt);
                    assert(action_rows(self.action_table@)[top as int].len() == nt + 1);
                }
                assert(action_rows(self.action_table@)[top as int] == self.action_table@[top as int]@);
            }
            let act = match la {
                Some(t) => self.action_table[top][t],
                None => None,
            };
            match act {
                None => {
                    let tok = current_token(&mut rest, Ghost(input));
                    let e = SyntaxError { token: tok, state: top, exhausted: false };
                    proof {
                        if at < n {
                            assert(input[n - 1 - (n - at - 1)] == input[at]);
                        }
                        assert(self.stops_at(g, tokens@, at, e));
                    }
                    return Err(e);
                },
                Some(Action::Shift(j)) => {
                    let ghost before = nodes@;
                    let tok = rest.pop().unwrap();
                    proof {
                        assert(tok == input[at]);
                        lemma_leaves_of_append(before, seq![TreeNode::Leaf(tok)]);
                        lemma_leaves_of_single(TreeNode::Leaf(tok));
                        assert(input.subrange(0, at + 1) =~= input.subrange(0, at).push(tok));
                    }
                    nodes.push(TreeNode::Leaf(tok));
                    proof {
                        assert(nodes@ =~= before + seq![TreeNode::Leaf(tok)]);
                        lemma_views_of_append(before, seq![TreeNode::Leaf(tok)]);
                        lemma_views_of_single(TreeNode::Leaf(tok));
                        assert(views_of(nodes@) == cur_nodes.push(ParseTree::Leaf(tok)));
                        assert(leaves(TreeNode::Leaf(tok)) =~= seq![tok]);
                        assert(leaves_of(before) + seq![tok] =~= input.subrange(0, at).push(tok));
                        let rows = action_rows(self.action_table@);
                        assert(rows[top as int][la->0 as int] == Some(Action::Shift(j)));
                        assert(g.state_proposes(self.lr1_sets@, self.transitions@, top as int, la->0 as int, Action::Shift(j)));
                        let i = choose|i: int| 0 <= i < self.lr1_sets@[top as int]@.len() && #[trigger] g.proposes(self.transitions@, top as int, self.lr1_sets@[top as int]@[i], la->0 as int, Action::Shift(j));
                        let it = self.lr1_sets@[top as int]@[i];
                        assert(g.item_ok(it));
                        let x = g.body(it.prod as int)[it.dot as int];
                        assert(g.symbol_ok(x));
                        assert(g.transition_ok(self.lr1_sets@, top as int, la->0 as int, self.transitions@[top as int]@[la->0 as int]));
                    }
                    let ghost old_stack = stack@;
                    stack.push(j);
                    proof {
                        assert(next == DriverState::Running(stack@, views_of(nodes@), at + 1));
                        let new_syms = syms.push(la->0 as int);
                        assert forall|i: int| 0 <= i < new_syms.len() implies 0 <= #[trigger] new_syms[i] < g.num_symbols()
                            && self.transitions@[stack@[i] as int]@[new_syms[i]] == Some(stack@[i + 1]) by {
                            if i < syms.len() {
                                assert(stack@[i] == old_stack[i]);
                                assert(stack@[i + 1] == old_stack[i + 1]);
                                assert(new_syms[i] == syms[i]);
                            }
                        }
                        assert forall|k: int| 0 <= k < stack@.len() implies #[trigger] stack@[k] < self.lr1_sets@.len() by {
                            if k < old_stack.len() {
                                assert(stack@[k] == old_stack[k]);
                            }
                        }
                        syms = new_syms;
                    }
                },
                Some(Action::Reduce(p)) => {
                    let ghost it = Item { prod: 0, dot: 0, lookahead: 0 };
                    proof {
                        assert(g.state_proposes(self.lr1_sets@, self.transitions@, top as int, la->0 as int, Action::Reduce(p)));
                        let i = choose|i: int| 0 <= i < self.lr1_sets@[top as int]@.len() && #[trigger] g.proposes(self.transitions@, top as int, self.lr1_sets@[top as int]@[i], la->0 as int, Action::Reduce(p));
                        it = self.lr1_sets@[top as int]@[i];
                        assert(g.item_ok(it));
                        assert(item_set(self.lr1_sets@[top as int]).contains(it));
                    }
                    let k = g.productions[p].body.len();
                    let head = g.productions[p].head;
                    let ghost nn0 = nodes@.len() as int;
                    proof {
                        self.lemma_walk_back_all(g, stack@, syms, nn0, it, it.dot as int);
                        let first = Item { prod: it.prod, dot: 0, lookahead: it.lookahead };
                        assert(Item { prod: it.prod, dot: (it.dot - it.dot) as usize, lookahead: it.lookahead } == first);
                        if p == 0 {
                            self.lemma_start_item_at_bottom(g, stack@, syms, nn0 - k, it.lookahead);
                        }
                        self.lemma_goto_on_head(g, stack@, syms, nn0 - k, first);
                        assert(g.head(p as int) < g.num_nonterminals());
                    }
                    let ghost before = nodes@;
                    let ghost old_stack = stack@;
                    let children = nodes.split_off(nodes.len() - k);
                    stack.truncate(stack.len() - k);
                    let below = stack[stack.len() - 1];
                    proof {
                        assert(below == old_stack[nn0 - k]);
                        assert(goto_rows(self.goto_table@)[below as int] == self.goto_table@[below as int]@);
                        assert(goto_rows(self.goto_table@)[below as int][head as int] == self.transitions@[below as int]@[nt + head]);
                    }
                    let j = self.goto_table[below][head].unwrap();
                    proof {
                        assert(g.transition_ok(self.lr1_sets@, below as int, nt + head, self.transitions@[below as int]@[nt + head]));
                    }
                    let label = g.nonterminals[head].clone();
                    let ghost kept = nodes@;
                    let node = TreeNode::Node { head: label, production: p, children };
                    proof {
                        assert(before =~= kept + children@);
                        lemma_leaves_of_append(kept, children@);
                        lemma_leaves_of_append(kept, seq![node]);
                        lemma_leaves_of_single(node);
                    }
                    nodes.push(node);
                    proof {
                        assert(nodes@ =~= kept + seq![node]);
                        lemma_views_of_append(kept, children@);
                        lemma_views_of_append(kept, seq![node]);
                        lemma_views_of_single(node);
                        assert(views_of(kept) =~= cur_nodes.subrange(0, nn0 - k));
                        assert(views_of(children@) =~= cur_nodes.subrange(nn0 - k, nn0));
                        assert(label@ == g.nonterminals@[head as int]@);
                        assert(tree_view(node) == ParseTree::Node(g.nonterminals@[head as int]@, p, cur_nodes.subrange(nn0 - k, nn0)));
                        assert(views_of(nodes@) == cur_nodes.subrange(0, nn0 - k).push(tree_view(node)));
                    }
                    let ghost mid_stack = stack@;
                    stack.push(j);
                    proof {
                        let new_syms = syms.subrange(0, nn0 - k).push(nt + head as int);
                        assert(mid_stack =~= old_stack.subrange(0, nn0 - k + 1));
                        assert(k == g.body(p as int).len());
                        assert(head == g.head(p as int));
                        assert(cur_stack[cur_stack.len() - 1 - k] == below);
                        assert(stack@ =~= cur_stack.subrange(0, cur_stack.len() - k).push(j));
                        assert(next == DriverState::Running(stack@, views_of(nodes@), at));
                        assert forall|i: int| 0 <= i < new_syms.len() implies 0 <= #[trigger] new_syms[i] < g.num_symbols()
                            && self.transitions@[stack@[i] as int]@[new_syms[i]] == Some(stack@[i + 1]) by {
                            if i < nn0 - k {
                                assert(new_syms[i] == syms[i]);
                                assert(stack@[i] == old_stack[i]);
                                assert(stack@[i + 1] == old_stack[i + 1]);
                            } else {
                                assert(stack@[i] == below);
                                assert(stack@[i + 1] == j);
                            }
                        }
                        assert forall|q: int| 0 <= q < stack@.len() implies #[trigger] stack@[q] < self.lr1_sets@.len() by {
                            if q < mid_stack.len() {
                                assert(stack@[q] == old_stack[q]);
                            }
                        }
                        syms = new_syms;
                    }
                },
                Some(Action::Accept) => {
                    proof {
                        assert(g.state_proposes(self.lr1_sets@, self.transitions@, top as int, la->0 as int, Action::Accept));
                        let i = choose|i: int| 0 <= i < self.lr1_sets@[top as int]@.len() && #[trigger] g.proposes(self.transitions@, top as int, self.lr1_sets@[top as int]@[i], la->0 as int, Action::Accept);
                        let it = self.lr1_sets@[top as int]@[i];
                        assert(g.item_ok(it));
                        assert(item_set(self.lr1_sets@[top as int]).contains(it));
                        let nn0 = nodes@.len() as int;
                        self.lemma_walk_back(g, stack@, syms, nn0, it);
                        self.lemma_start_item_at_bottom(g, stack@, syms, nn0 - 1, it.lookahead);
                        if rest@.len() > 0 {
                            assert(la->0 < nt);
                        }
                    }
                    let ghost before = nodes@;
                    let tree = nodes.pop().unwrap();
                    proof {
                        assert(before =~= seq![tree]);
                        lemma_leaves_of_single(tree);
                        lemma_views_of_single(tree);
                        assert(next == DriverState::Accepted(tree_view(tree)));
                        assert(input.subrange(0, n as int) =~= input);
                    }
                    return Ok(tree);
                },
            }
        }
    }
}

impl LR1Parser {
    /// Builds the canonical collection and the parsing tables of `g`.
    pub fn build_tables(g: &Grammar) -> (r: Result<LR1Parser, TableError>)
        requires
            g.wf(),
        ensures
            r matches Ok(p) ==> p.ready(g),
            r is Err ==> forall|b: Seq<Vec<Item>>, tb: Seq<Vec<Option<usize>>>| !#[trigger] g.collection_ok(b, tb),
    {
        let mut p = LR1Parser::new();
        match p.compute_lr1_item_sets(g) {
            Ok(()) => {
                p.construct_parsing_table(g);
                Ok(p)
            },
            Err(e) => Err(e),
        }
    }
}

// ---------------------------------------------------------------------------
// Canonical collections are unique up to numbering
// ---------------------------------------------------------------------------

impl Grammar {
    /// Set `j` of `a` is the goto of an earlier one.
    pub open spec fn goto_of_earlier(&self, a: Seq<Vec<Item>>, j: int) -> bool {
        exists|s: int, x: int| 0 <= s < j && 0 <= x < self.num_symbols() && item_set(a[j]) == #[trigger] self.goto_of(item_set(a[s]), self.symbol_at(x))
    }

    /// `a` lists distinct item sets found from the start set: the first is
    /// the start set, and each later one is a nonempty goto of an earlier one.
    pub open spec fn discovered(&self, a: Seq<Vec<Item>>) -> bool {
        &&& a.len() >= 1
        &&& item_set(a[0]) == self.start_set()
        &&& forall|i: int, j: int| 0 <= i < j < a.len() ==> item_set(#[trigger] a[i]) != item_set(#[trigger] a[j])
        &&& forall|j: int| 1 <= j < a.len() ==> #[trigger] self.goto_of_earlier(a, j) && item_set(a[j]) != Set::<Item>::empty()
    }
}

proof fn lemma_collection_discovered(g: &Grammar, a: Seq<Vec<Item>>, ta: Seq<Vec<Option<usize>>>)
    requires
        g.collection_ok(a, ta),
    ensures
        g.discovered(a),
{
    assert forall|j: int| 1 <= j < a.len() implies #[trigger] g.goto_of_earlier(a, j) && item_set(a[j]) != Set::<Item>::empty() by {
        assert(g.reached_before(ta, j));
        let (s, x) = choose|s: int, x: int| 0 <= s < j && s < ta.len() && 0 <= x < g.num_symbols() && #[trigger] ta[s]@[x] == Some(j as usize);
        assert(g.transition_ok(a, s, x, ta[s]@[x]));
    }
}

/// Every set of a discovered list is held by some state of any canonical collection.
pub proof fn lemma_state_in_other(
    g: &Grammar,
    a: Seq<Vec<Item>>,
    b: Seq<Vec<Item>>,
    tb: Seq<Vec<Option<usize>>>,
    i: int,
)
    requires
        g.discovered(a),
        g.collection_ok(b, tb),
        0 <= i < a.len(),
    ensures
        exists|j: int| 0 <= j < b.len() && item_set(#[trigger] b[j]) == item_set(a[i]),
    decreases i,
{
    if i == 0 {
        assert(item_set(b[0]) == item_set(a[0]));
    } else {
        assert(g.goto_of_earlier(a, i));
        let (s, x) = choose|s: int, x: int| 0 <= s < i && 0 <= x < g.num_symbols() && item_set(a[i]) == #[trigger] g.goto_of(item_set(a[s]), g.symbol_at(x));
        lemma_state_in_other(g, a, b, tb, s);
        let j0 = choose|j: int| 0 <= j < b.len() && item_set(#[trigger] b[j]) == item_set(a[s]);
        assert(g.transition_ok(b, j0, x, tb[j0]@[x]));
        let j = tb[j0]@[x]->0 as int;
        assert(item_set(b[j]) == item_set(a[i]));
    }
}

/// The state of `b` that holds the same items as state `i` of `a`.
pub open spec fn matching_state(a: Seq<Vec<Item>>, b: Seq<Vec<Item>>, i: int) -> int {
    choose|j: int| 0 <= j < b.len() && item_set(#[trigger] b[j]) == item_set(a[i])
}

/// A canonical collection has at least as many states as any discovered list of sets.
pub proof fn lemma_no_more_states(
    g: &Grammar,
    a: Seq<Vec<Item>>,
    b: Seq<Vec<Item>>,
    tb: Seq<Vec<Option<usize>>>,
)
    requires
        g.discovered(a),
        g.collection_ok(b, tb),
    ensures
        a.len() <= b.len(),
{
    let f = |i: int| matching_state(a, b, i);
    let x = vstd::set_lib::set_int_range(0, a.len() as int);
    let y = x.map(f);
    let range_b = vstd::set_lib::set_int_range(0, b.len() as int);
    vstd::set_lib::lemma_int_range(0, a.len() as int);
    vstd::set_lib::lemma_int_range(0, b.len() as int);
    assert forall|i: int| 0 <= i < a.len() implies 0 <= #[trigger] f(i) < b.len() && item_set(b[f(i)]) == item_set(a[i]) by {
        lemma_state_in_other(g, a, b, tb, i);
    }
    assert(vstd::relations::injective_on(f, x)) by {
        assert forall|i1: int, i2: int| x.contains(i1) && x.contains(i2) && #[trigger] f(i1) == #[trigger] f(i2) implies i1 == i2 by {
            if i1 < i2 {
                assert(item_set(a[i1]) != item_set(a[i2]));
            } else if i2 < i1 {
                assert(item_set(a[i2]) != item_set(a[i1]));
            }
        }
    }
    vstd::set_lib::lemma_map_size(x, y, f);
    assert(y.subset_of(range_b)) by {
        assert forall|j: int| y.contains(j) implies range_b.contains(j) by {
            let i = choose|i: int| x.contains(i) && f(i) == j;
        }
    }
    vstd::set_lib::lemma_len_subset(y, range_b);
}

/// Building the canonical collection twice gives the same states: any two
/// canonical collections of one grammar have the same number of states, and
/// each state of one holds the same items as exactly one state of the other.
pub proof fn lemma_collections_agree(
    g: &Grammar,
    a: Seq<Vec<Item>>,
    ta: Seq<Vec<Option<usize>>>,
    b: Seq<Vec<Item>>,
    tb: Seq<Vec<Option<usize>>>,
)
    requires
        g.collection_ok(a, ta),
        g.collection_ok(b, tb),
    ensures
        a.len() == b.len(),
        forall|i: int| 0 <= i < a.len() ==> 0 <= #[trigger] matching_state(a, b, i) < b.len()
            && item_set(b[matching_state(a, b, i)]) == item_set(a[i]),
        forall|i: int, j: int|
            #![trigger matching_state(a, b, i), b[j]]
            0 <= i < a.len() && 0 <= j < b.len() && item_set(b[j]) == item_set(a[i]) ==> j == matching_state(a, b, i),
{
    lemma_collection_discovered(g, a, ta);
    lemma_collection_discovered(g, b, tb);
    lemma_no_more_states(g, a, b, tb);
    lemma_no_more_states(g, b, a, ta);
    assert forall|i: int| 0 <= i < a.len() implies 0 <= #[trigger] matching_state(a, b, i) < b.len()
        && item_set(b[matching_state(a, b, i)]) == item_set(a[i]) by {
        lemma_state_in_other(g, a, b, tb, i);
    }
    assert forall|i: int, j: int|
        #![trigger matching_state(a, b, i), b[j]]
        0 <= i < a.len() && 0 <= j < b.len() && item_set(b[j]) == item_set(a[i]) implies j == matching_state(a, b, i) by {
        let m = matching_state(a, b, i);
        if j < m {
            assert(item_set(b[j]) != item_set(b[m]));
        } else if m < j {
            assert(item_set(b[m]) != item_set(b[j]));
        }
    }
}

/// Two table entries agree once states are identified by the items they
/// hold: the same reduce or accept, or shifts to states with the same items.
pub open spec fn actions_match(a: Seq<Vec<Item>>, b: Seq<Vec<Item>>, x: Option<Action>, y: Option<Action>) -> bool {
    match x {
        None => y is None,
        Some(Action::Shift(i)) => match y {
            Some(Action::Shift(j)) => i < a.len() && j < b.len() && item_set(a[i as int]) == item_set(b[j as int]),
            _ => false,
        },
        Some(other) => y == Some(other),
    }
}

/// Gotos agree when both are absent or lead to states with the same items.
pub open spec fn gotos_match(a: Seq<Vec<Item>>, b: Seq<Vec<Item>>, x: Option<usize>, y: Option<usize>) -> bool {
    match (x, y) {
        (None, None) => true,
        (Some(i), Some(j)) => i < a.len() && j < b.len() && item_set(a[i as int]) == item_set(b[j as int]),
        _ => false,
    }
}

proof fn lemma_proposal_carries_over(
    g: &Grammar,
    a: Seq<Vec<Item>>,
    ta: Seq<Vec<Option<usize>>>,
    b: Seq<Vec<Item>>,
    tb: Seq<Vec<Option<usize>>>,
    i: int,
    j: int,
    t: int,
    act: Action,
)
    requires
        g.wf(),
        g.collection_ok(a, ta),
        g.collection_ok(b, tb),
        0 <= i < a.len(),
        0 <= j < b.len(),
        item_set(a[i]) == item_set(b[j]),
        g.state_proposes(a, ta, i, t, act),
    ensures
        exists|other: Action| #[trigger] g.state_proposes(b, tb, j, t, other) && actions_match(a, b, Some(act), Some(other)),
{
    let k = choose|k: int| 0 <= k < a[i]@.len() && #[trigger] g.proposes(ta, i, a[i]@[k], t, act);
    let it = a[i]@[k];
    assert(item_set(a[i]).contains(it));
    assert(item_set(b[j]).contains(it));
    let k2 = choose|k2: int| 0 <= k2 < b[j]@.len() && b[j]@[k2] == it;
    assert(g.item_ok(it));
    if it.dot == g.body(it.prod as int).len() {
        assert(g.proposes(tb, j, b[j]@[k2], t, act));
        assert(g.state_proposes(b, tb, j, t, act));
        assert(actions_match(a, b, Some(act), Some(act)));
    } else {
        let x = g.body(it.prod as int)[it.dot as int];
        let xt = x->Terminal_0 as int;
        assert(g.symbol_ok(g.body(it.prod as int)[it.dot as int]));
        assert(g.symbol_at(xt) == x);
        assert(g.transition_ok(a, i, xt, ta[i]@[xt]));
        assert(g.transition_ok(b, j, xt, tb[j]@[xt]));
        let target = tb[j]@[xt]->0;
        let other = Action::Shift(target);
        assert(g.proposes(tb, j, b[j]@[k2], t, other));
        assert(g.state_proposes(b, tb, j, t, other));
        assert(actions_match(a, b, Some(act), Some(other)));
    }
}

/// Building the tables twice gives the same tables: for two parsers built
/// from one grammar without conflicts, states that hold the same items have
/// matching action entries on every terminal and matching goto entries on
/// every nonterminal.
pub proof fn lemma_tables_agree(g: &Grammar, pa: &LR1Parser, pb: &LR1Parser, i: int, j: int)
    requires
        pa.ready(g),
        pb.ready(g),
        pa.conflicts@.len() == 0,
        pb.conflicts@.len() == 0,
        0 <= i < pa.lr1_sets@.len(),
        0 <= j < pb.lr1_sets@.len(),
        item_set(pa.lr1_sets@[i]) == item_set(pb.lr1_sets@[j]),
    ensures
        forall|t: int| 0 <= t <= g.num_terminals() ==> actions_match(
            pa.lr1_sets@,
            pb.lr1_sets@,
            #[trigger] action_rows(pa.action_table@)[i][t],
            action_rows(pb.action_table@)[j][t],
        ),
        forall|n: int| 0 <= n < g.num_nonterminals() ==> gotos_match(
            pa.lr1_sets@,
            pb.lr1_sets@,
            #[trigger] goto_rows(pa.goto_table@)[i][n],
            goto_rows(pb.goto_table@)[j][n],
        ),
{
    let a = pa.lr1_sets@;
    let b = pb.lr1_sets@;
    let ta = pa.transitions@;
    let tb = pb.transitions@;
    let ra = action_rows(pa.action_table@);
    let rb = action_rows(pb.action_table@);
    assert forall|t: int| 0 <= t <= g.num_terminals() implies actions_match(a, b, #[trigger] ra[i][t], rb[j][t]) by {
        if ra[i][t] is Some {
            let act = ra[i][t]->0;
            assert(g.state_proposes(a, ta, i, t, act));
            lemma_proposal_carries_over(g, a, ta, b, tb, i, j, t, act);
            let other = choose|other: Action| #[trigger] g.state_proposes(b, tb, j, t, other) && actions_match(a, b, Some(act), Some(other));
            let k = choose|k: int| 0 <= k < b[j]@.len() && #[trigger] g.proposes(tb, j, b[j]@[k], t, other);
            assert(g.registered(b, tb, rb, pb.conflicts@, j, k));
            assert(rb[j][t] == Some(other));
        } else if rb[j][t] is Some {
            let act = rb[j][t]->0;
            assert(g.state_proposes(b, tb, j, t, act));
            lemma_proposal_carries_over(g, b, tb, a, ta, j, i, t, act);
            let other = choose|other: Action| #[trigger] g.state_proposes(a, ta, i, t, other) && actions_match(b, a, Some(act), Some(other));
            let k = choose|k: int| 0 <= k < a[i]@.len() && #[trigger] g.proposes(ta, i, a[i]@[k], t, other);
            assert(g.registered(a, ta, ra, pa.conflicts@, i, k));
        }
    }
    assert forall|n: int| 0 <= n < g.num_nonterminals() implies gotos_match(a, b, #[trigger] goto_rows(pa.goto_table@)[i][n], goto_rows(pb.goto_table@)[j][n]) by {
        let x = g.num_terminals() + n;
        assert(g.symbol_at(x) == Symbol::NonTerminal(n as usize));
        assert(g.transition_ok(a, i, x, ta[i]@[x]));
        assert(g.transition_ok(b, j, x, tb[j]@[x]));
    }
}

} // verus!
