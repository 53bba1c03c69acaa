use vstd::prelude::*;

verus! {

/// A grammar symbol: a terminal, by its index in `token_list`, or a
/// nonterminal, by its index in `nonterminals`.
#[derive(Clone, Copy, Debug, PartialEq, Eq, Structural)]
pub enum Symbol {
    Terminal(usize),
    NonTerminal(usize),
}

/// One alternative `head -> body` of a nonterminal.
#[derive(Clone, Debug)]
pub struct Production {
    pub head: usize,
    pub body: Vec<Symbol>,
}

/// A context-free grammar with its FIRST sets.
///
/// Nonterminal 0 is the augmented start symbol and production 0 is the
/// augmented production `S' -> S` over the declared start symbol `S`.
/// `first_sets[n][t]` says whether terminal `t` is in FIRST of nonterminal
/// `n`, and `nullable[n]` whether the empty marker is.
#[derive(Clone, Debug)]
pub struct Grammar {
    pub token_list: Vec<String>,
    pub nonterminals: Vec<String>,
    pub productions: Vec<Production>,
    pub first_sets: Vec<Vec<bool>>,
    pub nullable: Vec<bool>,
    pub start_symbol: String,
}

// ---------------------------------------------------------------------------
// FIRST of a symbol sequence, over given FIRST sets
// ---------------------------------------------------------------------------

/// Terminal `t` can begin `w`, given FIRST sets `fs` and nullability `nl`.
pub open spec fn seq_first(fs: Seq<Seq<bool>>, nl: Seq<bool>, w: Seq<Symbol>, t: int) -> bool
    decreases w.len(),
{
    if w.len() == 0 {
        false
    } else {
        match w[0] {
            Symbol::Terminal(x) => x == t,
            Symbol::NonTerminal(n) => fs[n as int][t] || (nl[n as int] && seq_first(
                fs,
                nl,
                w.drop_first(),
                t,
            )),
        }
    }
}

/// Every symbol of `w` can derive the empty string.
pub open spec fn seq_nullable(nl: Seq<bool>, w: Seq<Symbol>) -> bool
    decreases w.len(),
{
    if w.len() == 0 {
        true
    } else {
        match w[0] {
            Symbol::Terminal(_) => false,
            Symbol::NonTerminal(n) => nl[n as int] && seq_nullable(nl, w.drop_first()),
        }
    }
}

/// Pointwise inclusion of FIRST-set tables.
pub open spec fn sets_le(fs: Seq<Seq<bool>>, nl: Seq<bool>, fs2: Seq<Seq<bool>>, nl2: Seq<bool>) -> bool {
    &&& fs.len() == fs2.len()
    &&& nl.len() == nl2.len()
    &&& forall|n: int, t: int|
        0 <= n < fs.len() && 0 <= t < fs[n].len() && #[trigger] fs[n][t] ==> fs2[n][t]
    &&& forall|n: int| 0 <= n < fs.len() ==> fs[n].len() == #[trigger] fs2[n].len()
    &&& forall|n: int| 0 <= n < nl.len() && #[trigger] nl[n] ==> nl2[n]
}

pub proof fn lemma_seq_first_mono(
    fs: Seq<Seq<bool>>,
    nl: Seq<bool>,
    fs2: Seq<Seq<bool>>,
    nl2: Seq<bool>,
    w: Seq<Symbol>,
    t: int,
)
    requires
        sets_le(fs, nl, fs2, nl2),
        nl.len() == fs.len(),
        0 <= t,
        forall|i: int| 0 <= i < w.len() ==> (#[trigger] w[i] matches Symbol::NonTerminal(n) ==> n
            < fs.len() && t < fs[n as int].len()),
    ensures
        seq_first(fs, nl, w, t) ==> seq_first(fs2, nl2, w, t),
        seq_nullable(nl, w) ==> seq_nullable(nl2, w),
    decreases w.len(),
{
    if w.len() > 0 {
        assert forall|i: int| 0 <= i < w.drop_first().len() implies (#[trigger] w.drop_first()[i]
            matches Symbol::NonTerminal(n) ==> n < fs.len() && t < fs[n as int].len()) by {
            assert(w.drop_first()[i] == w[i + 1]);
        }
        lemma_seq_first_mono(fs, nl, fs2, nl2, w.drop_first(), t);
        assert(w[0] matches Symbol::NonTerminal(n) ==> n < fs.len() && t < fs[n as int].len());
    }
}

/// Production `p`'s FIRST is included in its head's entries of `fs`/`nl`.
pub open spec fn closed_for(
    prods: Seq<Production>,
    nt: int,
    fs: Seq<Seq<bool>>,
    nl: Seq<bool>,
    p: int,
) -> bool {
    &&& forall|t: int|
        0 <= t < nt && #[trigger] seq_first(fs, nl, prods[p].body@, t) ==> fs[prods[p].head as int][t]
    &&& seq_nullable(nl, prods[p].body@) ==> nl[prods[p].head as int]
}

/// Every entry of `fs`/`nl` comes from one of the head's productions.
pub open spec fn justified_by(
    prods: Seq<Production>,
    nn: int,
    nt: int,
    fs: Seq<Seq<bool>>,
    nl: Seq<bool>,
) -> bool {
    &&& forall|n: int, t: int|
        0 <= n < nn && 0 <= t < nt && #[trigger] fs[n][t] ==> exists|p: int|
            0 <= p < prods.len() && prods[p].head == n && #[trigger] seq_first(
                fs,
                nl,
                prods[p].body@,
                t,
            )
    &&& forall|n: int|
        0 <= n < nn && #[trigger] nl[n] ==> exists|p: int|
            0 <= p < prods.len() && prods[p].head == n && #[trigger] seq_nullable(
                nl,
                prods[p].body@,
            )
}

impl Grammar {
    pub open spec fn num_terminals(&self) -> int {
        self.token_list@.len() as int
    }

    pub open spec fn num_nonterminals(&self) -> int {
        self.nonterminals@.len() as int
    }

    pub open spec fn head(&self, p: int) -> int {
        self.productions@[p].head as int
    }

    pub open spec fn body(&self, p: int) -> Seq<Symbol> {
        self.productions@[p].body@
    }

    pub open spec fn symbol_ok(&self, s: Symbol) -> bool {
        match s {
            Symbol::Terminal(t) => t < self.num_terminals(),
            Symbol::NonTerminal(n) => n < self.num_nonterminals(),
        }
    }

    /// Indices are in range, nonterminal 0 heads exactly the augmented
    /// production 0, and the FIRST-set tables have the grammar's dimensions.
    pub open spec fn shape_ok(&self) -> bool {
        &&& self.num_nonterminals() >= 1
        &&& self.num_terminals() + self.num_nonterminals() + 2 < usize::MAX
        &&& self.productions@.len() >= 1
        &&& self.head(0) == 0
        &&& self.body(0).len() == 1
        &&& self.body(0)[0] is NonTerminal
        &&& self.body(0)[0]->NonTerminal_0 != 0
        &&& forall|p: int| 0 <= p < self.productions@.len() ==> 0 <= #[trigger] self.head(p)
            < self.num_nonterminals()
        &&& forall|p: int| 1 <= p < self.productions@.len() ==> #[trigger] self.head(p) != 0
        &&& forall|p: int| 0 <= p < self.productions@.len() ==> #[trigger] self.body(p).len() + 2 < usize::MAX
        &&& forall|p: int, i: int|
            0 <= p < self.productions@.len() && 0 <= i < self.body(p).len() ==> self.symbol_ok(
                #[trigger] self.body(p)[i],
            ) && self.body(p)[i] != Symbol::NonTerminal(0)
        &&& self.first_sets@.len() == self.num_nonterminals()
        &&& self.nullable@.len() == self.num_nonterminals()
        &&& forall|n: int| 0 <= n < self.num_nonterminals() ==> #[trigger] self.first_sets@[n]@.len()
            == self.num_terminals()
    }

    /// The FIRST sets as a sequence of rows.
    pub open spec fn first_rows(&self) -> Seq<Seq<bool>> {
        self.first_sets@.map_values(|row: Vec<bool>| row@)
    }

    /// Terminal `t` can begin the symbol sequence `w`.
    pub open spec fn first_of(&self, w: Seq<Symbol>, t: int) -> bool {
        seq_first(self.first_rows(), self.nullable@, w, t)
    }

    /// `w` can derive the empty string.
    pub open spec fn nullable_seq(&self, w: Seq<Symbol>) -> bool {
        seq_nullable(self.nullable@, w)
    }

    /// Every production's FIRST is included in its head's FIRST set.
    pub open spec fn first_closed(&self) -> bool {
        forall|p: int|
            0 <= p < self.productions@.len() ==> #[trigger] closed_for(
                self.productions@,
                self.num_terminals(),
                self.first_rows(),
                self.nullable@,
                p,
            )
    }

    /// Every member of a FIRST set comes from one of the head's productions.
    pub open spec fn first_justified(&self) -> bool {
        justified_by(
            self.productions@,
            self.num_nonterminals(),
            self.num_terminals(),
            self.first_rows(),
            self.nullable@,
        )
    }

    /// A grammar ready for table construction: well shaped, with FIRST sets
    /// that satisfy the FIRST equations.
    pub open spec fn wf(&self) -> bool {
        &&& self.shape_ok()
        &&& self.first_closed()
        &&& self.first_justified()
    }
}

// ---------------------------------------------------------------------------
// Flag tables
// ---------------------------------------------------------------------------

pub open spec fn rows_of(fs: Seq<Vec<bool>>) -> Seq<Seq<bool>> {
    fs.map_values(|row: Vec<bool>| row@)
}

/// How many entries are still false.
pub open spec fn falses(v: Seq<bool>) -> nat
    decreases v.len(),
{
    if v.len() == 0 {
        0
    } else {
        (if v.last() { 0nat } else { 1nat }) + falses(v.drop_last())
    }
}

pub open spec fn falses_rows(rows: Seq<Seq<bool>>) -> nat
    decreases rows.len(),
{
    if rows.len() == 0 {
        0
    } else {
        falses(rows.last()) + falses_rows(rows.drop_last())
    }
}

pub(crate) proof fn lemma_falses_set(v: Seq<bool>, i: int)
    requires
        0 <= i < v.len(),
        !v[i],
    ensures
        falses(v.update(i, true)) + 1 == falses(v),
    decreases v.len(),
{
    let w = v.update(i, true);
    if i < v.len() - 1 {
        lemma_falses_set(v.drop_last(), i);
        assert(w.drop_last() =~= v.drop_last().update(i, true));
    } else {
        assert(w.drop_last() =~= v.drop_last());
    }
}

pub(crate) proof fn lemma_falses_rows_set(rows: Seq<Seq<bool>>, n: int, t: int)
    requires
        0 <= n < rows.len(),
        0 <= t < rows[n].len(),
        !rows[n][t],
    ensures
        falses_rows(rows.update(n, rows[n].update(t, true))) + 1 == falses_rows(rows),
    decreases rows.len(),
{
    let w = rows.update(n, rows[n].update(t, true));
    if n < rows.len() - 1 {
        lemma_falses_rows_set(rows.drop_last(), n, t);
        assert(w.drop_last() =~= rows.drop_last().update(n, rows[n].update(t, true)));
    } else {
        lemma_falses_set(rows[n], t);
        assert(w.drop_last() =~= rows.drop_last());
    }
}

pub(crate) fn falses_vec(len: usize) -> (r: Vec<bool>)
    ensures
        r@.len() == len,
        forall|i: int| 0 <= i < len ==> !#[trigger] r@[i],
{
    let mut v: Vec<bool> = Vec::new();
    let mut i: usize = 0;
    while i < len
        invariant
            i <= len,
            v@.len() == i,
            forall|k: int| 0 <= k < i ==> !#[trigger] v@[k],
        decreases len - i,
    {
        v.push(false);
        i = i + 1;
    }
    v
}

pub(crate) fn copy_flags(v: &Vec<bool>) -> (r: Vec<bool>)
    ensures
        r@ == v@,
{
    let mut out: Vec<bool> = Vec::new();
    let mut i: usize = 0;
    while i < v.len()
        invariant
            i <= v@.len(),
            out@ == v@.subrange(0, i as int),
        decreases v@.len() - i,
    {
        out.push(v[i]);
        assert(v@.subrange(0, i + 1) == v@.subrange(0, i as int).push(v@[i as int]));
        i = i + 1;
    }
    assert(v@.subrange(0, v@.len() as int) == v@);
    out
}

/// Sets entry `t` of row `n`.
fn set_flag(fs: &mut Vec<Vec<bool>>, n: usize, t: usize)
    requires
        n < old(fs)@.len(),
        t < old(fs)@[n as int]@.len(),
    ensures
        rows_of(final(fs)@) == rows_of(old(fs)@).update(n as int, old(fs)@[n as int]@.update(
            t as int,
            true,
        )),
{
    let mut row = copy_flags(&fs[n]);
    row.set(t, true);
    fs.set(n, row);
    assert(rows_of(fs@) =~= rows_of(old(fs)@).update(n as int, old(fs)@[n as int]@.update(
        t as int,
        true,
    )));
}

/// Whether terminal `t` can begin `w`, given the tables `fs` and `nl`.
fn seq_first_exec(fs: &Vec<Vec<bool>>, nl: &Vec<bool>, w: &Vec<Symbol>, t: usize) -> (r: bool)
    requires
        forall|i: int| 0 <= i < w@.len() ==> (#[trigger] w@[i] matches Symbol::NonTerminal(n) ==> n
            < fs@.len() && n < nl@.len() && t < fs@[n as int]@.len()),
    ensures
        r == seq_first(rows_of(fs@), nl@, w@, t as int),
{
    let mut i: usize = 0;
    assert(w@.subrange(0, w@.len() as int) =~= w@);
    while i < w.len()
        invariant
            i <= w@.len(),
            forall|k: int| 0 <= k < w@.len() ==> (#[trigger] w@[k] matches Symbol::NonTerminal(n)
                ==> n < fs@.len() && n < nl@.len() && t < fs@[n as int]@.len()),
            seq_first(rows_of(fs@), nl@, w@.subrange(i as int, w@.len() as int), t as int)
                == seq_first(rows_of(fs@), nl@, w@, t as int),
        decreases w@.len() - i,
    {
        let ghost rest = w@.subrange(i as int, w@.len() as int);
        assert(rest.drop_first() =~= w@.subrange(i + 1, w@.len() as int));
        assert(rest[0] == w@[i as int]);
        match w[i] {
            Symbol::Terminal(x) => {
                return x == t;
            },
            Symbol::NonTerminal(n) => {
                if fs[n][t] {
                    return true;
                }
                if !nl[n] {
                    return false;
                }
            },
        }
        i = i + 1;
    }
    assert(w@.subrange(w@.len() as int, w@.len() as int).len() == 0);
    false
}

/// Whether every symbol of `w` can derive the empty string, given `nl`.
fn seq_nullable_exec(nl: &Vec<bool>, w: &Vec<Symbol>) -> (r: bool)
    requires
        forall|i: int| 0 <= i < w@.len() ==> (#[trigger] w@[i] matches Symbol::NonTerminal(n) ==> n
            < nl@.len()),
    ensures
        r == seq_nullable(nl@, w@),
{
    let mut i: usize = 0;
    assert(w@.subrange(0, w@.len() as int) =~= w@);
    while i < w.len()
        invariant
            i <= w@.len(),
            forall|k: int| 0 <= k < w@.len() ==> (#[trigger] w@[k] matches Symbol::NonTerminal(n)
                ==> n < nl@.len()),
            seq_nullable(nl@, w@.subrange(i as int, w@.len() as int)) == seq_nullable(nl@, w@),
        decreases w@.len() - i,
    {
        let ghost rest = w@.subrange(i as int, w@.len() as int);
        assert(rest.drop_first() =~= w@.subrange(i + 1, w@.len() as int));
        assert(rest[0] == w@[i as int]);
        match w[i] {
            Symbol::Terminal(_) => {
                return false;
            },
            Symbol::NonTerminal(n) => {
                if !nl[n] {
                    return false;
                }
            },
        }
        i = i + 1;
    }
    assert(w@.subrange(w@.len() as int, w@.len() as int).len() == 0);
    true
}

// ---------------------------------------------------------------------------
// The FIRST-set fixpoint
// ---------------------------------------------------------------------------

/// `fs`/`nl` have one row per nonterminal and one column per terminal.
pub open spec fn table_dims(fs: Seq<Seq<bool>>, nl: Seq<bool>, nn: int, nt: int) -> bool {
    &&& fs.len() == nn
    &&& nl.len() == nn
    &&& forall|n: int| 0 <= n < nn ==> #[trigger] fs[n].len() == nt
}

/// `fs`/`nl` lie below every table that satisfies the FIRST inclusions of
/// the productions `prods`: they are the least such tables.
pub open spec fn below_every_closed(prods: Seq<Production>, nn: int, nt: int, fs: Seq<Seq<bool>>, nl: Seq<bool>) -> bool {
    forall|fs2: Seq<Seq<bool>>, nl2: Seq<bool>|
        table_dims(fs2, nl2, nn, nt) && (forall|p: int| 0 <= p < prods.len() ==> #[trigger] closed_for(prods, nt, fs2, nl2, p))
            ==> #[trigger] sets_le(fs, nl, fs2, nl2)
}

impl Grammar {
    /// The FIRST sets are the least tables closed under every production.
    pub open spec fn first_least(&self) -> bool {
        below_every_closed(
            self.productions@,
            self.num_nonterminals(),
            self.num_terminals(),
            self.first_rows(),
            self.nullable@,
        )
    }

    proof fn lemma_symbols_fit(&self, fs: Seq<Seq<bool>>, nl: Seq<bool>, p: int, t: int)
        requires
            self.shape_ok(),
            table_dims(fs, nl, self.num_nonterminals(), self.num_terminals()),
            0 <= p < self.productions@.len(),
            0 <= t < self.num_terminals(),
        ensures
            forall|i: int| 0 <= i < self.body(p).len() ==> (#[trigger] self.body(p)[i] matches Symbol::NonTerminal(n)
                ==> n < fs.len() && n < nl.len() && t < fs[n as int].len()),
    {
        assert forall|i: int| 0 <= i < self.body(p).len() implies (#[trigger] self.body(p)[i] matches Symbol::NonTerminal(n)
            ==> n < fs.len() && n < nl.len() && t < fs[n as int].len()) by {
            assert(self.symbol_ok(self.body(p)[i]));
        }
    }

    proof fn lemma_symbols_fit_rows(&self, nl: Seq<bool>, p: int)
        requires
            self.shape_ok(),
            nl.len() == self.num_nonterminals(),
            0 <= p < self.productions@.len(),
        ensures
            forall|i: int| 0 <= i < self.body(p).len() ==> (#[trigger] self.body(p)[i] matches Symbol::NonTerminal(n)
                ==> n < nl.len()),
    {
        assert forall|i: int| 0 <= i < self.body(p).len() implies (#[trigger] self.body(p)[i] matches Symbol::NonTerminal(n)
            ==> n < nl.len()) by {
            assert(self.symbol_ok(self.body(p)[i]));
        }
    }

    /// Growing the tables by entries that some production justifies keeps
    /// every entry justified.
    proof fn lemma_justified_grows(
        &self,
        fs: Seq<Seq<bool>>,
        nl: Seq<bool>,
        fs2: Seq<Seq<bool>>,
        nl2: Seq<bool>,
    )
        requires
            self.shape_ok(),
            table_dims(fs, nl, self.num_nonterminals(), self.num_terminals()),
            table_dims(fs2, nl2, self.num_nonterminals(), self.num_terminals()),
            sets_le(fs, nl, fs2, nl2),
            justified_by(self.productions@, self.num_nonterminals(), self.num_terminals(), fs, nl),
            forall|n: int, t: int|
                0 <= n < self.num_nonterminals() && 0 <= t < self.num_terminals() && #[trigger] fs2[n][t]
                    && !fs[n][t] ==> exists|p: int|
                    0 <= p < self.productions@.len() && self.productions@[p].head == n
                        && #[trigger] seq_first(fs, nl, self.productions@[p].body@, t),
            forall|n: int|
                0 <= n < self.num_nonterminals() && #[trigger] nl2[n] && !nl[n] ==> exists|p: int|
                    0 <= p < self.productions@.len() && self.productions@[p].head == n
                        && #[trigger] seq_nullable(nl, self.productions@[p].body@),
        ensures
            justified_by(self.productions@, self.num_nonterminals(), self.num_terminals(), fs2, nl2),
    {
        let prods = self.productions@;
        assert forall|n: int, t: int|
            0 <= n < self.num_nonterminals() && 0 <= t < self.num_terminals()
                && #[trigger] fs2[n][t] implies exists|p: int|
            0 <= p < prods.len() && prods[p].head == n && #[trigger] seq_first(
                fs2,
                nl2,
                prods[p].body@,
                t,
            ) by {
            let p = choose|p: int|
                0 <= p < prods.len() && prods[p].head == n && #[trigger] seq_first(
                    fs,
                    nl,
                    prods[p].body@,
                    t,
                );
            self.lemma_symbols_fit(fs, nl, p, t);
            lemma_seq_first_mono(fs, nl, fs2, nl2, prods[p].body@, t);
        }
        assert forall|n: int| 0 <= n < self.num_nonterminals() && #[trigger] nl2[n] implies exists|
            p: int,
        | 0 <= p < prods.len() && prods[p].head == n && #[trigger] seq_nullable(nl2, prods[p].body@) by {
            let p = choose|p: int|
                0 <= p < prods.len() && prods[p].head == n && #[trigger] seq_nullable(
                    nl,
                    prods[p].body@,
                );
            self.lemma_symbols_fit_rows(nl, p);
            lemma_nullable_mono(nl, nl2, prods[p].body@);
        }
    }

    /// Adding entries that production `p` yields under `fs0`/`nl0` keeps the
    /// tables below every closed table.
    proof fn lemma_below_grows(
        &self,
        fs0: Seq<Seq<bool>>,
        nl0: Seq<bool>,
        fs1: Seq<Seq<bool>>,
        nl1: Seq<bool>,
        p: int,
    )
        requires
            self.shape_ok(),
            0 <= p < self.productions@.len(),
            table_dims(fs0, nl0, self.num_nonterminals(), self.num_terminals()),
            table_dims(fs1, nl1, self.num_nonterminals(), self.num_terminals()),
            below_every_closed(self.productions@, self.num_nonterminals(), self.num_terminals(), fs0, nl0),
            forall|n: int, t: int|
                0 <= n < self.num_nonterminals() && 0 <= t < self.num_terminals() && #[trigger] fs1[n][t]
                    ==> fs0[n][t] || (n == self.head(p) && seq_first(fs0, nl0, self.body(p), t)),
            forall|n: int|
                0 <= n < self.num_nonterminals() && #[trigger] nl1[n]
                    ==> nl0[n] || (n == self.head(p) && seq_nullable(nl0, self.body(p))),
        ensures
            below_every_closed(self.productions@, self.num_nonterminals(), self.num_terminals(), fs1, nl1),
    {
        let nn = self.num_nonterminals();
        let nt = self.num_terminals();
        let prods = self.productions@;
        assert forall|fs2: Seq<Seq<bool>>, nl2: Seq<bool>|
            table_dims(fs2, nl2, nn, nt) && (forall|q: int| 0 <= q < prods.len() ==> #[trigger] closed_for(prods, nt, fs2, nl2, q))
            implies #[trigger] sets_le(fs1, nl1, fs2, nl2) by {
            assert(sets_le(fs0, nl0, fs2, nl2));
            assert(closed_for(prods, nt, fs2, nl2, p));
            self.lemma_symbols_fit_rows(nl0, p);
            lemma_nullable_mono(nl0, nl2, self.body(p));
            assert forall|n: int, t: int| 0 <= n < fs1.len() && 0 <= t < fs1[n].len() && #[trigger] fs1[n][t] implies fs2[n][t] by {
                if !fs0[n][t] {
                    self.lemma_symbols_fit(fs0, nl0, p, t);
                    lemma_seq_first_mono(fs0, nl0, fs2, nl2, self.body(p), t);
                }
            }
        }
    }

    /// Computes the FIRST sets as the fixpoint of the FIRST equations: a
    /// production's FIRST is added to its head's until nothing changes.
    pub fn calculate_first_sets(&mut self)
        requires
            old(self).shape_ok(),
        ensures
            final(self).wf(),
            final(self).first_least(),
            final(self).token_list@ == old(self).token_list@,
            final(self).nonterminals@ == old(self).nonterminals@,
            final(self).productions@ == old(self).productions@,
            final(self).start_symbol@ == old(self).start_symbol@,
    {
        let nn = self.nonterminals.len();
        let nt = self.token_list.len();
        let mut fs: Vec<Vec<bool>> = Vec::new();
        let mut i: usize = 0;
        while i < nn
            invariant
                i <= nn,
                fs@.len() == i,
                forall|n: int| 0 <= n < i ==> #[trigger] fs@[n]@.len() == nt,
                forall|n: int, t: int| 0 <= n < i && 0 <= t < nt ==> !#[trigger] fs@[n]@[t],
            decreases nn - i,
        {
            fs.push(falses_vec(nt));
            i = i + 1;
        }
        let mut nl = falses_vec(nn);
        let ghost g = *self;
        proof {
            let rows = rows_of(fs@);
            assert forall|fs2: Seq<Seq<bool>>, nl2: Seq<bool>|
                table_dims(fs2, nl2, nn as int, nt as int) && (forall|p: int| 0 <= p < g.productions@.len() ==> #[trigger] closed_for(g.productions@, nt as int, fs2, nl2, p))
                implies #[trigger] sets_le(rows, nl@, fs2, nl2) by {
                assert forall|n: int, t: int| 0 <= n < rows.len() && 0 <= t < rows[n].len() && #[trigger] rows[n][t] implies fs2[n][t] by {
                    assert(rows[n] == fs@[n]@);
                }
                assert forall|n: int| 0 <= n < rows.len() implies rows[n].len() == #[trigger] fs2[n].len() by {
                    assert(rows[n] == fs@[n]@);
                }
            }
        }
        loop
            invariant
                *self == g,
                g.shape_ok(),
                nn == g.num_nonterminals(),
                nt == g.num_terminals(),
                table_dims(rows_of(fs@), nl@, nn as int, nt as int),
                justified_by(g.productions@, nn as int, nt as int, rows_of(fs@), nl@),
                below_every_closed(g.productions@, nn as int, nt as int, rows_of(fs@), nl@),
            ensures
                *self == g,
                g.shape_ok(),
                nn == g.num_nonterminals(),
                nt == g.num_terminals(),
                table_dims(rows_of(fs@), nl@, nn as int, nt as int),
                justified_by(g.productions@, nn as int, nt as int, rows_of(fs@), nl@),
                below_every_closed(g.productions@, nn as int, nt as int, rows_of(fs@), nl@),
                forall|p: int| 0 <= p < g.productions@.len() ==> #[trigger] closed_for(g.productions@, nt as int, rows_of(fs@), nl@, p),
            decreases falses_rows(rows_of(fs@)) + falses(nl@),
        {
            let ghost m0 = falses_rows(rows_of(fs@)) + falses(nl@);
            let mut changed = false;
            let mut p: usize = 0;
            while p < self.productions.len()
                invariant
                    *self == g,
                    g.shape_ok(),
                    nn == g.num_nonterminals(),
                    nt == g.num_terminals(),
                    p <= g.productions@.len(),
                    table_dims(rows_of(fs@), nl@, nn as int, nt as int),
                    justified_by(g.productions@, nn as int, nt as int, rows_of(fs@), nl@),
                    below_every_closed(g.productions@, nn as int, nt as int, rows_of(fs@), nl@),
                    !changed ==> forall|q: int| 0 <= q < p ==> #[trigger] closed_for(g.productions@, nt as int, rows_of(fs@), nl@, q),
                    !changed ==> falses_rows(rows_of(fs@)) + falses(nl@) == m0,
                    changed ==> falses_rows(rows_of(fs@)) + falses(nl@) < m0,
                decreases g.productions@.len() - p,
            {
                let h = self.productions[p].head;
                proof {
                    g.lemma_symbols_fit_rows(nl@, p as int);
                    assert(0 <= g.head(p as int) < nn);
                }
                if !nl[h] && seq_nullable_exec(&nl, &self.productions[p].body) {
                    let ghost fs0 = rows_of(fs@);
                    let ghost nl0 = nl@;
                    nl.set(h, true);
                    proof {
                        lemma_falses_set(nl0, h as int);
                        assert(sets_le(fs0, nl0, rows_of(fs@), nl@));
                        g.lemma_justified_grows(fs0, nl0, rows_of(fs@), nl@);
                        g.lemma_below_grows(fs0, nl0, rows_of(fs@), nl@, p as int);
                    }
                    changed = true;
                }
                let mut t: usize = 0;
                while t < nt
                    invariant
                        *self == g,
                        g.shape_ok(),
                        nn == g.num_nonterminals(),
                        nt == g.num_terminals(),
                        p < g.productions@.len(),
                        h == g.head(p as int),
                        t <= nt,
                        table_dims(rows_of(fs@), nl@, nn as int, nt as int),
                        justified_by(g.productions@, nn as int, nt as int, rows_of(fs@), nl@),
                        below_every_closed(g.productions@, nn as int, nt as int, rows_of(fs@), nl@),
                        !changed ==> forall|q: int| 0 <= q < p ==> #[trigger] closed_for(g.productions@, nt as int, rows_of(fs@), nl@, q),
                        !changed ==> (seq_nullable(nl@, g.body(p as int)) ==> nl@[h as int]),
                        !changed ==> forall|u: int| 0 <= u < t && #[trigger] seq_first(rows_of(fs@), nl@, g.body(p as int), u) ==> rows_of(fs@)[h as int][u],
                        !changed ==> falses_rows(rows_of(fs@)) + falses(nl@) == m0,
                        changed ==> falses_rows(rows_of(fs@)) + falses(nl@) < m0,
                    decreases nt - t,
                {
                    proof {
                        g.lemma_symbols_fit(rows_of(fs@), nl@, p as int, t as int);
                        assert(rows_of(fs@)[h as int] == fs@[h as int]@);
                    }
                    if !fs[h][t] && seq_first_exec(&fs, &nl, &self.productions[p].body, t) {
                        let ghost fs0 = rows_of(fs@);
                        let ghost nl0 = nl@;
                        set_flag(&mut fs, h, t);
                        proof {
                            lemma_falses_rows_set(fs0, h as int, t as int);
                            assert(sets_le(fs0, nl0, rows_of(fs@), nl@));
                            g.lemma_justified_grows(fs0, nl0, rows_of(fs@), nl@);
                            g.lemma_below_grows(fs0, nl0, rows_of(fs@), nl@, p as int);
                        }
                        changed = true;
                    }
                    t = t + 1;
                }
                p = p + 1;
            }
            if !changed {
                break;
            }
        }
        let ghost rows = rows_of(fs@);
        self.first_sets = fs;
        self.nullable = nl;
        proof {
            assert(self.first_rows() =~= rows);
            assert forall|n: int| 0 <= n < self.num_nonterminals() implies #[trigger] self.first_sets@[n]@.len()
                == self.num_terminals() by {
                assert(rows[n] == self.first_sets@[n]@);
            }
            assert(self.productions@ == g.productions@);
            assert(self.token_list@ == g.token_list@);
            assert(self.nonterminals@ == g.nonterminals@);
            assert forall|p: int| 0 <= p < self.productions@.len() implies 0 <= #[trigger] self.head(p)
                < self.num_nonterminals() by {
                assert(g.head(p) == self.head(p));
            }
            assert forall|p: int| 1 <= p < self.productions@.len() implies #[trigger] self.head(p) != 0 by {
                assert(g.head(p) == self.head(p));
            }
            assert forall|p: int| 0 <= p < self.productions@.len() implies #[trigger] self.body(p).len() + 2 < usize::MAX by {
                assert(g.body(p) == self.body(p));
            }
            assert forall|p: int, i: int|
                0 <= p < self.productions@.len() && 0 <= i < self.body(p).len() implies self.symbol_ok(
                    #[trigger] self.body(p)[i],
                ) && self.body(p)[i] != Symbol::NonTerminal(0) by {
                assert(g.body(p) == self.body(p));
                assert(g.symbol_ok(g.body(p)[i]));
            }
            assert(self.shape_ok());
            assert(self.first_closed());
            assert(self.first_justified());
        }
    }
}

proof fn lemma_nullable_mono(nl: Seq<bool>, nl2: Seq<bool>, w: Seq<Symbol>)
    requires
        nl.len() == nl2.len(),
        forall|n: int| 0 <= n < nl.len() && #[trigger] nl[n] ==> nl2[n],
        forall|i: int| 0 <= i < w.len() ==> (#[trigger] w[i] matches Symbol::NonTerminal(n) ==> n
            < nl.len()),
    ensures
        seq_nullable(nl, w) ==> seq_nullable(nl2, w),
    decreases w.len(),
{
    if w.len() > 0 {
        assert forall|i: int| 0 <= i < w.drop_first().len() implies (#[trigger] w.drop_first()[i]
            matches Symbol::NonTerminal(n) ==> n < nl.len()) by {
            assert(w.drop_first()[i] == w[i + 1]);
        }
        lemma_nullable_mono(nl, nl2, w.drop_first());
        assert(w[0] matches Symbol::NonTerminal(n) ==> n < nl.len());
    }
}

/// The lookahead set of `w` followed by `a`: the terminals that can begin
/// `w`, plus `a` when `w` can derive the empty string. Terminal index
/// `num_terminals()` stands for the end marker.
pub open spec fn lookahead_of(g: &Grammar, w: Seq<Symbol>, a: int, t: int) -> bool {
    (0 <= t < g.num_terminals() && g.first_of(w, t)) || (g.nullable_seq(w) && t == a)
}

impl Grammar {
    /// FIRST of a terminal is the terminal itself, without the empty marker.
    pub proof fn lemma_first_of_terminal(&self, t: usize)
        ensures
            forall|u: int| #[trigger] self.first_of(seq![Symbol::Terminal(t)], u) <==> u == t,
            !self.nullable_seq(seq![Symbol::Terminal(t)]),
    {
        assert(seq![Symbol::Terminal(t)][0] == Symbol::Terminal(t));
    }

    /// FIRST of a terminal is the terminal itself; FIRST of a nonterminal
    /// whose productions all begin with a terminal is the set of those
    /// terminals, without the empty marker.
    pub proof fn lemma_first_of_leading_terminals(&self, n: int)
        requires
            self.wf(),
            0 <= n < self.num_nonterminals(),
            forall|p: int|
                0 <= p < self.productions@.len() && self.head(p) == n ==> self.body(p).len() > 0
                    && #[trigger] self.body(p)[0] is Terminal,
        ensures
            forall|t: usize, u: int| #[trigger] self.first_of(seq![Symbol::Terminal(t)], u) <==> u == t,
            forall|u: int|
                0 <= u < self.num_terminals() ==> (#[trigger] self.first_rows()[n][u] <==> exists|p: int|
                    0 <= p < self.productions@.len() && self.head(p) == n && #[trigger] self.body(p)[0]
                        == Symbol::Terminal(u as usize)),
            !self.nullable@[n],
    {
        let prods = self.productions@;
        assert forall|t: usize, u: int| #[trigger] self.first_of(seq![Symbol::Terminal(t)], u) <==> u == t by {
            assert(seq![Symbol::Terminal(t)][0] == Symbol::Terminal(t));
        }
        assert forall|u: int| 0 <= u < self.num_terminals() implies (#[trigger] self.first_rows()[n][u]
            <==> exists|p: int|
            0 <= p < self.productions@.len() && self.head(p) == n && #[trigger] self.body(p)[0]
                == Symbol::Terminal(u as usize)) by {
            if self.first_rows()[n][u] {
                let p = choose|p: int|
                    0 <= p < prods.len() && prods[p].head == n && #[trigger] seq_first(
                        self.first_rows(),
                        self.nullable@,
                        prods[p].body@,
                        u,
                    );
                assert(self.body(p)[0] is Terminal);
                assert(self.body(p)[0] == Symbol::Terminal(u as usize));
            }
            if exists|p: int|
                0 <= p < self.productions@.len() && self.head(p) == n && #[trigger] self.body(p)[0]
                    == Symbol::Terminal(u as usize) {
                let p = choose|p: int|
                    0 <= p < self.productions@.len() && self.head(p) == n && #[trigger] self.body(p)[0]
                        == Symbol::Terminal(u as usize);
                assert(seq_first(self.first_rows(), self.nullable@, prods[p].body@, u));
                assert(closed_for(prods, self.num_terminals(), self.first_rows(), self.nullable@, p));
            }
        }
        if self.nullable@[n] {
            let p = choose|p: int|
                0 <= p < prods.len() && prods[p].head == n && #[trigger] seq_nullable(
                    self.nullable@,
                    prods[p].body@,
                );
            assert(self.body(p)[0] is Terminal);
        }
    }

    /// The lookahead set of `symbols` followed by `fallback`, indexed by
    /// terminal, with the end marker at index `num_terminals()`.
    pub fn first_symbols(&self, symbols: &Vec<Symbol>, fallback: usize) -> (r: Vec<bool>)
        requires
            self.wf(),
            fallback <= self.num_terminals(),
            forall|i: int| 0 <= i < symbols@.len() ==> self.symbol_ok(#[trigger] symbols@[i]),
        ensures
            r@.len() == self.num_terminals() + 1,
            forall|t: int| 0 <= t <= self.num_terminals() ==> #[trigger] r@[t] == lookahead_of(self, symbols@, fallback as int, t),
    {
        let nt = self.token_list.len();
        let mut r: Vec<bool> = Vec::new();
        let mut t: usize = 0;
        let nullable = seq_nullable_exec(&self.nullable, symbols);
        while t <= nt
            invariant
                self.wf(),
                nt == self.num_terminals(),
                fallback <= nt,
                t <= nt + 1,
                r@.len() == t,
                nullable == self.nullable_seq(symbols@),
                forall|i: int| 0 <= i < symbols@.len() ==> self.symbol_ok(#[trigger] symbols@[i]),
                forall|u: int| 0 <= u < t ==> #[trigger] r@[u] == lookahead_of(self, symbols@, fallback as int, u),
            decreases nt + 1 - t,
        {
            let mut b = nullable && t == fallback;
            if t < nt {
                proof {
                    assert forall|i: int| 0 <= i < symbols@.len() implies (#[trigger] symbols@[i] matches Symbol::NonTerminal(n)
                        ==> n < self.first_sets@.len() && n < self.nullable@.len() && t < self.first_sets@[n as int]@.len()) by {
                        assert(self.symbol_ok(symbols@[i]));
                    }
                    assert(rows_of(self.first_sets@) == self.first_rows());
                }
                b = b || seq_first_exec(&self.first_sets, &self.nullable, symbols, t);
            }
            r.push(b);
            t = t + 1;
        }
        r
    }
}

} // verus!
