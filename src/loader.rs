use vstd::prelude::*;

use crate::grammar::{Grammar, Production, Symbol};
use crate::grammar::{falses, falses_vec, lemma_falses_set};
use crate::text::{chars_equal, chars_of, copy_vec, string_of_range};

verus! {

// ---------------------------------------------------------------------------
// Lines and words of a grammar text
// ---------------------------------------------------------------------------

pub open spec fn flush_word(words: Seq<Seq<char>>, w: Seq<char>) -> Seq<Seq<char>> {
    if w.len() == 0 {
        words
    } else {
        words.push(w)
    }
}

pub open spec fn blank_char(c: char) -> bool {
    c == ' ' || c == '\t' || c == '\r'
}

/// The finished lines, the words of the current line and the current word
/// after reading the first `n` characters of `s`.
pub open spec fn split_prefix(s: Seq<char>, n: int) -> (Seq<Seq<Seq<char>>>, Seq<Seq<char>>, Seq<char>)
    decreases n,
{
    if n <= 0 {
        (seq![], seq![], seq![])
    } else {
        let st = split_prefix(s, n - 1);
        let c = s[n - 1];
        if c == '\n' {
            (st.0.push(flush_word(st.1, st.2)), seq![], seq![])
        } else if blank_char(c) {
            (st.0, flush_word(st.1, st.2), seq![])
        } else {
            (st.0, st.1, st.2.push(c))
        }
    }
}

/// The lines of a grammar text, each as its whitespace-separated words.
pub open spec fn grammar_lines(s: Seq<char>) -> Seq<Seq<Seq<char>>> {
    let st = split_prefix(s, s.len() as int);
    st.0.push(flush_word(st.1, st.2))
}

pub open spec fn words_view(v: Seq<Vec<char>>) -> Seq<Seq<char>> {
    v.map_values(|w: Vec<char>| w@)
}

pub open spec fn lines_view(v: Seq<Vec<Vec<char>>>) -> Seq<Seq<Seq<char>>> {
    v.map_values(|l: Vec<Vec<char>>| words_view(l@))
}

fn split_lines(s: &Vec<char>) -> (r: Vec<Vec<Vec<char>>>)
    ensures
        lines_view(r@) == grammar_lines(s@),
{
    let mut lines: Vec<Vec<Vec<char>>> = Vec::new();
    let mut words: Vec<Vec<char>> = Vec::new();
    let mut word: Vec<char> = Vec::new();
    let mut i: usize = 0;
    while i < s.len()
        invariant
            i <= s@.len(),
            (lines_view(lines@), words_view(words@), word@) == split_prefix(s@, i as int),
        decreases s@.len() - i,
    {
        let c = s[i];
        let ghost st = split_prefix(s@, i as int);
        if c == '\n' {
            if word.len() > 0 {
                words.push(word);
                word = Vec::new();
            }
            assert(words_view(words@) =~= flush_word(st.1, st.2));
            let line = words;
            words = Vec::new();
            let ghost old_lines = lines@;
            lines.push(line);
            proof {
                assert(lines_view(lines@) =~= lines_view(old_lines).push(words_view(line@)));
                assert(lines_view(lines@) =~= st.0.push(flush_word(st.1, st.2)));
                assert(words_view(words@) =~= Seq::<Seq<char>>::empty());
                assert(word@ =~= Seq::<char>::empty());
            }
        } else if c == ' ' || c == '\t' || c == '\r' {
            if word.len() > 0 {
                words.push(word);
                word = Vec::new();
            }
            proof {
                assert(words_view(words@) =~= flush_word(st.1, st.2));
                assert(word@ =~= Seq::<char>::empty());
            }
        } else {
            word.push(c);
        }
        i = i + 1;
    }
    let ghost st = split_prefix(s@, s@.len() as int);
    if word.len() > 0 {
        words.push(word);
    }
    assert(words_view(words@) =~= flush_word(st.1, st.2));
    let ghost old_lines = lines@;
    let ghost last = words@;
    lines.push(words);
    proof {
        assert(lines_view(lines@) =~= lines_view(old_lines).push(words_view(last)));
        assert(lines_view(lines@) =~= st.0.push(flush_word(st.1, st.2)));
    }
    lines
}

// ---------------------------------------------------------------------------
// The grammar a text describes
// ---------------------------------------------------------------------------

/// Why a grammar text was refused.
#[derive(Clone, Copy, Debug, PartialEq, Eq, Structural)]
pub enum GrammarError {
    /// A line that is neither blank, structural, `%token ...` nor `head : ...`.
    MalformedLine(usize),
    /// The text defines no production.
    NoProductions,
    /// The word at this line and word index (both from 0) of a rule is
    /// neither a declared terminal nor a defined nonterminal.
    UndefinedSymbol(usize, usize),
    /// The grammar has more symbols than the tables can index.
    TooLarge,
    /// This nonterminal (an index of `nonterminals`, never the augmented
    /// start symbol) derives no string of terminals.
    Unproductive(usize),
}

/// A line whose first word begins with a brace: structural noise.
pub open spec fn is_brace_line(l: Seq<Seq<char>>) -> bool {
    l.len() > 0 && l[0].len() > 0 && (l[0][0] == '{' || l[0][0] == '}')
}

pub open spec fn is_token_line(l: Seq<Seq<char>>) -> bool {
    l.len() > 0 && !is_brace_line(l) && l[0] == "%token"@
}

pub open spec fn is_rule_line(l: Seq<Seq<char>>) -> bool {
    l.len() >= 2 && !is_brace_line(l) && l[0] != "%token"@ && l[1] == ":"@
}

pub open spec fn is_malformed_line(l: Seq<Seq<char>>) -> bool {
    l.len() > 0 && !is_brace_line(l) && !is_token_line(l) && !is_rule_line(l)
}

/// The first malformed line among the first `i`.
pub open spec fn first_malformed(lines: Seq<Seq<Seq<char>>>, i: int) -> Option<int>
    decreases i,
{
    if i <= 0 {
        None
    } else {
        match first_malformed(lines, i - 1) {
            Some(k) => Some(k),
            None => if is_malformed_line(lines[i - 1]) {
                Some(i - 1)
            } else {
                None
            },
        }
    }
}

/// The terminals declared by the first `i` lines, in order.
pub open spec fn declared_terminals(lines: Seq<Seq<Seq<char>>>, i: int) -> Seq<Seq<char>>
    decreases i,
{
    if i <= 0 {
        seq![]
    } else if is_token_line(lines[i - 1]) {
        declared_terminals(lines, i - 1) + lines[i - 1].subrange(1, lines[i - 1].len() as int)
    } else {
        declared_terminals(lines, i - 1)
    }
}

/// The distinct heads of the rules on the first `i` lines, in order of first appearance.
pub open spec fn rule_heads(lines: Seq<Seq<Seq<char>>>, i: int) -> Seq<Seq<char>>
    decreases i,
{
    if i <= 0 {
        seq![]
    } else {
        let h = rule_heads(lines, i - 1);
        if is_rule_line(lines[i - 1]) && !h.contains(lines[i - 1][0]) {
            h.push(lines[i - 1][0])
        } else {
            h
        }
    }
}

/// The first index at or after `i` where `names` holds `w`.
pub open spec fn first_index(names: Seq<Seq<char>>, w: Seq<char>, i: int) -> Option<int>
    decreases names.len() - i,
{
    if i < 0 || i >= names.len() {
        None
    } else if names[i] == w {
        Some(i)
    } else {
        first_index(names, w, i + 1)
    }
}

/// The symbol a body word stands for: the empty marker stands for none, a
/// declared terminal for itself, a rule head for its nonterminal (index 0
/// is the augmented start symbol); any other word is undefined.
pub open spec fn resolve_word(terms: Seq<Seq<char>>, heads: Seq<Seq<char>>, w: Seq<char>) -> Option<Seq<Symbol>> {
    if w == "ε"@ {
        Some(seq![])
    } else {
        match first_index(terms, w, 0) {
            Some(t) => Some(seq![Symbol::Terminal(t as usize)]),
            None => match first_index(heads, w, 0) {
                Some(h) => Some(seq![Symbol::NonTerminal((h + 1) as usize)]),
                None => None,
            },
        }
    }
}

/// Reading the first `n` body words of a rule with head `h`: the finished
/// alternatives and the body of the current one, or the index of the first
/// undefined word.
pub open spec fn rule_prefix(
    terms: Seq<Seq<char>>,
    heads: Seq<Seq<char>>,
    h: int,
    ws: Seq<Seq<char>>,
    n: int,
) -> Result<(Seq<(int, Seq<Symbol>)>, Seq<Symbol>), int>
    decreases n,
{
    if n <= 0 {
        Ok((seq![], seq![]))
    } else {
        match rule_prefix(terms, heads, h, ws, n - 1) {
            Err(w) => Err(w),
            Ok(st) => if ws[n - 1] == "|"@ {
                Ok((st.0.push((h, st.1)), seq![]))
            } else {
                match resolve_word(terms, heads, ws[n - 1]) {
                    Some(syms) => Ok((st.0, st.1 + syms)),
                    None => Err(n - 1),
                }
            },
        }
    }
}

/// The productions of a rule line `head : body | body ...`, or the index
/// in the line of its first undefined word.
pub open spec fn line_productions(terms: Seq<Seq<char>>, heads: Seq<Seq<char>>, l: Seq<Seq<char>>) -> Result<Seq<(int, Seq<Symbol>)>, int> {
    let h = first_index(heads, l[0], 0)->0 + 1;
    let ws = l.subrange(2, l.len() as int);
    match rule_prefix(terms, heads, h, ws, ws.len() as int) {
        Ok(st) => Ok(st.0.push((h, st.1))),
        Err(w) => Err(w + 2),
    }
}

/// The productions of the rules on the first `i` lines, in order, or the
/// line and word index of the first undefined word.
pub open spec fn rule_productions(
    terms: Seq<Seq<char>>,
    heads: Seq<Seq<char>>,
    lines: Seq<Seq<Seq<char>>>,
    i: int,
) -> Result<Seq<(int, Seq<Symbol>)>, (int, int)>
    decreases i,
{
    if i <= 0 {
        Ok(seq![])
    } else {
        match rule_productions(terms, heads, lines, i - 1) {
            Err(k) => Err(k),
            Ok(ps) => if is_rule_line(lines[i - 1]) {
                match line_productions(terms, heads, lines[i - 1]) {
                    Ok(more) => Ok(ps + more),
                    Err(w) => Err((i - 1, w)),
                }
            } else {
                Ok(ps)
            },
        }
    }
}

/// Nonterminal `n` derives a string of terminals by a derivation tree of
/// height at most `k`.
pub open spec fn derives_terminals_within(prods: Seq<(int, Seq<Symbol>)>, n: int, k: nat) -> bool
    decreases k,
{
    k > 0 && exists|p: int|
        0 <= p < prods.len() && #[trigger] prods[p].0 == n && forall|i: int|
            0 <= i < prods[p].1.len() ==> match #[trigger] prods[p].1[i] {
                Symbol::Terminal(_) => true,
                Symbol::NonTerminal(m) => derives_terminals_within(prods, m as int, (k - 1) as nat),
            }
}

/// Nonterminal `n` derives some string of terminals.
pub open spec fn productive(prods: Seq<(int, Seq<Symbol>)>, n: int) -> bool {
    exists|k: nat| derives_terminals_within(prods, n, k)
}

/// The first nonterminal below `nn`, from `i` on, that derives no string of
/// terminals. The augmented start symbol 0 derives one exactly when the
/// declared start symbol does, so the search starts at 1.
pub open spec fn first_unproductive(prods: Seq<(int, Seq<Symbol>)>, nn: int, i: int) -> Option<int>
    decreases nn - i,
{
    if i < 0 || i >= nn {
        None
    } else if !productive(prods, i) {
        Some(i)
    } else {
        first_unproductive(prods, nn, i + 1)
    }
}

/// The name of the augmented start symbol: the first rule's head with a prime.
pub open spec fn augmented_name(heads: Seq<Seq<char>>) -> Seq<char> {
    heads[0].push('\'')
}

/// What a grammar text describes: its terminals, its nonterminals (the
/// augmented start symbol first, then the rule heads) and its productions
/// (the augmented one first, then each rule's alternatives in order).
pub open spec fn grammar_of_text(s: Seq<char>) -> Result<(Seq<Seq<char>>, Seq<Seq<char>>, Seq<(int, Seq<Symbol>)>), GrammarError> {
    let lines = grammar_lines(s);
    let n = lines.len() as int;
    let terms = declared_terminals(lines, n);
    let heads = rule_heads(lines, n);
    match first_malformed(lines, n) {
        Some(k) => Err(GrammarError::MalformedLine(k as usize)),
        None => if heads.len() == 0 {
            Err(GrammarError::NoProductions)
        } else {
            match rule_productions(terms, heads, lines, n) {
                Err(k) => Err(GrammarError::UndefinedSymbol(k.0 as usize, k.1 as usize)),
                Ok(ps) => {
                    let all = seq![(0int, seq![Symbol::NonTerminal(1)])] + ps;
                    if terms.len() + heads.len() + 3 >= usize::MAX || exists|p: int| 0 <= p < all.len() && #[trigger] all[p].1.len() + 2 >= usize::MAX {
                        Err(GrammarError::TooLarge)
                    } else {
                        match first_unproductive(all, heads.len() + 1 as int, 1) {
                            Some(n) => Err(GrammarError::Unproductive(n as usize)),
                            None => Ok((terms, seq![augmented_name(heads)] + heads, all)),
                        }
                    }
                },
            }
        },
    }
}

pub open spec fn names_view(v: Seq<String>) -> Seq<Seq<char>> {
    v.map_values(|s: String| s@)
}

pub open spec fn productions_view(v: Seq<Production>) -> Seq<(int, Seq<Symbol>)> {
    v.map_values(|p: Production| (p.head as int, p.body@))
}

// ---------------------------------------------------------------------------
// Loading
// ---------------------------------------------------------------------------

proof fn lemma_first_index_some(names: Seq<Seq<char>>, w: Seq<char>, i: int)
    requires
        0 <= i,
    ensures
        first_index(names, w, i) matches Some(k) ==> i <= k < names.len() && names[k] == w,
        first_index(names, w, i) is None <==> forall|k: int| i <= k < names.len() ==> names[k] != w,
    decreases names.len() - i,
{
    if i < names.len() && names[i] != w {
        lemma_first_index_some(names, w, i + 1);
    }
}

proof fn lemma_first_index_contains(names: Seq<Seq<char>>, w: Seq<char>)
    ensures
        first_index(names, w, 0) is Some <==> names.contains(w),
        first_index(names, w, 0) matches Some(k) ==> 0 <= k < names.len() && names[k] == w,
{
    lemma_first_index_some(names, w, 0);
}

proof fn lemma_rule_head_listed(lines: Seq<Seq<Seq<char>>>, k: int, i: int)
    requires
        0 <= k < i <= lines.len(),
        is_rule_line(lines[k]),
    ensures
        rule_heads(lines, i).contains(lines[k][0]),
    decreases i,
{
    if k < i - 1 {
        lemma_rule_head_listed(lines, k, i - 1);
        let h = rule_heads(lines, i - 1);
        if is_rule_line(lines[i - 1]) && !h.contains(lines[i - 1][0]) {
            let j = choose|j: int| 0 <= j < h.len() && h[j] == lines[k][0];
            assert(h.push(lines[i - 1][0])[j] == lines[k][0]);
        }
    } else {
        let h = rule_heads(lines, i - 1);
        if !h.contains(lines[k][0]) {
            assert(h.push(lines[k][0])[h.len() as int] == lines[k][0]);
        }
    }
}

fn index_of(names: &Vec<Vec<char>>, w: &Vec<char>) -> (r: Option<usize>)
    ensures
        r matches Some(k) ==> first_index(words_view(names@), w@, 0) == Some(k as int),
        r is None ==> first_index(words_view(names@), w@, 0) is None,
{
    let mut i: usize = 0;
    while i < names.len()
        invariant
            i <= names@.len(),
            first_index(words_view(names@), w@, i as int) == first_index(words_view(names@), w@, 0),
        decreases names@.len() - i,
    {
        if chars_equal(&names[i], w) {
            return Some(i);
        }
        i = i + 1;
    }
    None
}

fn is_brace(l: &Vec<Vec<char>>) -> (r: bool)
    ensures
        r == is_brace_line(words_view(l@)),
{
    if l.len() == 0 || l[0].len() == 0 {
        return false;
    }
    let c = l[0][0];
    c == '{' || c == '}'
}

fn is_token_decl(l: &Vec<Vec<char>>) -> (r: bool)
    ensures
        r == is_token_line(words_view(l@)),
{
    let kw = chars_of("%token");
    l.len() > 0 && !is_brace(l) && chars_equal(&l[0], &kw)
}

fn is_rule(l: &Vec<Vec<char>>) -> (r: bool)
    ensures
        r == is_rule_line(words_view(l@)),
{
    let kw = chars_of("%token");
    let colon = chars_of(":");
    l.len() >= 2 && !is_brace(l) && !chars_equal(&l[0], &kw) && chars_equal(&l[1], &colon)
}

/// What a body word contributes: `None` when it is undefined.
fn resolve(terms: &Vec<Vec<char>>, heads: &Vec<Vec<char>>, w: &Vec<char>) -> (r: Option<Option<Symbol>>)
    ensures
        r is None ==> resolve_word(words_view(terms@), words_view(heads@), w@) is None,
        r matches Some(o) ==> resolve_word(words_view(terms@), words_view(heads@), w@) == Some(
            match o {
                Some(x) => seq![x],
                None => Seq::<Symbol>::empty(),
            },
        ),
{
    let eps = chars_of("ε");
    if chars_equal(w, &eps) {
        return Some(None);
    }
    match index_of(terms, w) {
        Some(t) => Some(Some(Symbol::Terminal(t))),
        None => match index_of(heads, w) {
            Some(h) => {
                proof {
                    lemma_first_index_some(words_view(heads@), w@, 0);
                }
                assert(h < heads.len());
                Some(Some(Symbol::NonTerminal(h + 1)))
            },
            None => None,
        },
    }
}

fn strings_of(v: &Vec<Vec<char>>) -> (r: Vec<String>)
    ensures
        names_view(r@) == words_view(v@),
{
    let mut out: Vec<String> = Vec::new();
    let mut i: usize = 0;
    while i < v.len()
        invariant
            i <= v@.len(),
            out@.len() == i,
            forall|k: int| 0 <= k < i ==> #[trigger] out@[k]@ == v@[k]@,
        decreases v@.len() - i,
    {
        out.push(string_of_range(&v[i], 0, v[i].len()));
        proof {
            assert(v@[i as int]@.subrange(0, v@[i as int]@.len() as int) == v@[i as int]@);
        }
        i = i + 1;
    }
    assert(names_view(out@) =~= words_view(v@));
    out
}

/// Every nonterminal of `w` is flagged in `f`.
pub open spec fn all_flagged(f: Seq<bool>, w: Seq<Symbol>) -> bool {
    forall|i: int| 0 <= i < w.len() ==> match #[trigger] w[i] {
        Symbol::Terminal(_) => true,
        Symbol::NonTerminal(m) => f[m as int],
    }
}

proof fn lemma_derives_grows(prods: Seq<(int, Seq<Symbol>)>, n: int, k: nat)
    requires
        derives_terminals_within(prods, n, k),
    ensures
        derives_terminals_within(prods, n, k + 1),
    decreases k,
{
    let p = choose|p: int|
        0 <= p < prods.len() && #[trigger] prods[p].0 == n && forall|i: int|
            0 <= i < prods[p].1.len() ==> match #[trigger] prods[p].1[i] {
                Symbol::Terminal(_) => true,
                Symbol::NonTerminal(m) => derives_terminals_within(prods, m as int, (k - 1) as nat),
            };
    assert forall|i: int| 0 <= i < prods[p].1.len() implies match #[trigger] prods[p].1[i] {
        Symbol::Terminal(_) => true,
        Symbol::NonTerminal(m) => derives_terminals_within(prods, m as int, k),
    } by {
        if let Symbol::NonTerminal(m) = prods[p].1[i] {
            lemma_derives_grows(prods, m as int, (k - 1) as nat);
        }
    }
}

proof fn lemma_flags_complete(prods: Seq<(int, Seq<Symbol>)>, f: Seq<bool>, n: int, k: nat)
    requires
        forall|p: int| 0 <= p < prods.len() && #[trigger] all_flagged(f, prods[p].1) ==> f[prods[p].0],
        derives_terminals_within(prods, n, k),
    ensures
        f[n],
    decreases k,
{
    let p = choose|p: int|
        0 <= p < prods.len() && #[trigger] prods[p].0 == n && forall|i: int|
            0 <= i < prods[p].1.len() ==> match #[trigger] prods[p].1[i] {
                Symbol::Terminal(_) => true,
                Symbol::NonTerminal(m) => derives_terminals_within(prods, m as int, (k - 1) as nat),
            };
    assert forall|i: int| 0 <= i < prods[p].1.len() implies match #[trigger] prods[p].1[i] {
        Symbol::Terminal(_) => true,
        Symbol::NonTerminal(m) => f[m as int],
    } by {
        if let Symbol::NonTerminal(m) = prods[p].1[i] {
            lemma_flags_complete(prods, f, m as int, (k - 1) as nat);
        }
    }
    assert(all_flagged(f, prods[p].1));
}

fn body_flagged(f: &Vec<bool>, w: &Vec<Symbol>) -> (r: bool)
    requires
        forall|i: int| 0 <= i < w@.len() ==> (#[trigger] w@[i] matches Symbol::NonTerminal(m) ==> m < f@.len()),
    ensures
        r == all_flagged(f@, w@),
{
    let mut i: usize = 0;
    while i < w.len()
        invariant
            i <= w@.len(),
            forall|k: int| 0 <= k < w@.len() ==> (#[trigger] w@[k] matches Symbol::NonTerminal(m) ==> m < f@.len()),
            forall|k: int| 0 <= k < i ==> match #[trigger] w@[k] {
                Symbol::Terminal(_) => true,
                Symbol::NonTerminal(m) => f@[m as int],
            },
        decreases w@.len() - i,
    {
        match w[i] {
            Symbol::Terminal(_) => {},
            Symbol::NonTerminal(m) => {
                if !f[m] {
                    return false;
                }
            },
        }
        i = i + 1;
    }
    true
}

/// Flags the nonterminals that derive some string of terminals.
fn productive_flags(prods: &Vec<Production>, nn: usize) -> (r: Vec<bool>)
    requires
        forall|p: int| 0 <= p < prods@.len() ==> #[trigger] prods@[p].head < nn,
        forall|p: int, i: int| 0 <= p < prods@.len() && 0 <= i < prods@[p].body@.len()
            ==> (#[trigger] prods@[p].body@[i] matches Symbol::NonTerminal(m) ==> m < nn),
    ensures
        r@.len() == nn,
        forall|n: int| 0 <= n < nn ==> #[trigger] r@[n] == productive(productions_view(prods@), n),
{
    let ghost pv = productions_view(prods@);
    let mut flags = falses_vec(nn);
    let ghost mut k: nat = 0;
    loop
        invariant
            pv == productions_view(prods@),
            forall|p: int| 0 <= p < prods@.len() ==> #[trigger] prods@[p].head < nn,
            forall|p: int, i: int| 0 <= p < prods@.len() && 0 <= i < prods@[p].body@.len()
                ==> (#[trigger] prods@[p].body@[i] matches Symbol::NonTerminal(m) ==> m < nn),
            flags@.len() == nn,
            forall|n: int| 0 <= n < nn && #[trigger] flags@[n] ==> derives_terminals_within(pv, n, k),
        ensures
            flags@.len() == nn,
            forall|n: int| 0 <= n < nn && #[trigger] flags@[n] ==> derives_terminals_within(pv, n, k),
            forall|p: int| 0 <= p < pv.len() && #[trigger] all_flagged(flags@, pv[p].1) ==> flags@[pv[p].0],
        decreases falses(flags@),
    {
        let snapshot = copy_vec(&flags);
        let ghost f0 = falses(flags@);
        proof {
            assert forall|n: int| 0 <= n < nn && #[trigger] flags@[n] implies derives_terminals_within(pv, n, k + 1) by {
                lemma_derives_grows(pv, n, k);
            }
        }
        let mut changed = false;
        let mut p: usize = 0;
        while p < prods.len()
            invariant
                pv == productions_view(prods@),
                forall|q: int| 0 <= q < prods@.len() ==> #[trigger] prods@[q].head < nn,
                forall|q: int, i: int| 0 <= q < prods@.len() && 0 <= i < prods@[q].body@.len()
                    ==> (#[trigger] prods@[q].body@[i] matches Symbol::NonTerminal(m) ==> m < nn),
                p <= prods@.len(),
                flags@.len() == nn,
                snapshot@.len() == nn,
                forall|n: int| 0 <= n < nn && #[trigger] snapshot@[n] ==> derives_terminals_within(pv, n, k),
                forall|n: int| 0 <= n < nn && #[trigger] flags@[n] ==> derives_terminals_within(pv, n, k + 1),
                !changed ==> flags@ == snapshot@,
                !changed ==> falses(flags@) == f0,
                changed ==> falses(flags@) < f0,
                !changed ==> forall|q: int| 0 <= q < p && #[trigger] all_flagged(flags@, pv[q].1) ==> flags@[pv[q].0],
            decreases prods@.len() - p,
        {
            let h = prods[p].head;
            proof {
                assert(pv[p as int] == (prods@[p as int].head as int, prods@[p as int].body@));
                assert forall|n: int| 0 <= n < nn && #[trigger] flags@[n] implies derives_terminals_within(pv, n, k + 1) by {
                }
            }
            if !flags[h] && body_flagged(&snapshot, &prods[p].body) {
                let ghost before = flags@;
                flags.set(h, true);
                proof {
                    lemma_falses_set(before, h as int);
                    assert(pv[p as int].0 == h);
                    assert forall|i: int| 0 <= i < pv[p as int].1.len() implies match #[trigger] pv[p as int].1[i] {
                        Symbol::Terminal(_) => true,
                        Symbol::NonTerminal(m) => derives_terminals_within(pv, m as int, k),
                    } by {
                        if let Symbol::NonTerminal(m) = pv[p as int].1[i] {
                            assert(snapshot@[m as int]);
                        }
                    }
                    assert(derives_terminals_within(pv, h as int, k + 1));
                }
                changed = true;
            }
            p = p + 1;
        }
        proof {
            assert forall|n: int| 0 <= n < nn && #[trigger] flags@[n] implies derives_terminals_within(pv, n, k + 1) by {
            }
            if !changed {
                assert forall|n: int| 0 <= n < nn && #[trigger] flags@[n] implies derives_terminals_within(pv, n, k) by {
                    assert(snapshot@[n]);
                }
            }
        }
        if !changed {
            break;
        }
        proof {
            k = k + 1;
        }
    }
    proof {
        assert forall|n: int| 0 <= n < nn implies #[trigger] flags@[n] == productive(pv, n) by {
            if productive(pv, n) {
                let j = choose|j: nat| derives_terminals_within(pv, n, j);
                lemma_flags_complete(pv, flags@, n, j);
            }
        }
    }
    flags
}

fn l_malformed(l: &Vec<Vec<char>>) -> (r: bool)
    ensures
        r == is_malformed_line(words_view(l@)),
{
    l.len() > 0 && !is_brace(l) && !is_token_decl(l) && !is_rule(l)
}

proof fn lemma_first_malformed_stays(ls: Seq<Seq<Seq<char>>>, i: int, n: int)
    requires
        0 <= i <= n,
        first_malformed(ls, i) is Some,
    ensures
        first_malformed(ls, n) == first_malformed(ls, i),
    decreases n - i,
{
    if i < n {
        lemma_first_malformed_stays(ls, i, n - 1);
    }
}

proof fn lemma_rule_prefix_stuck(
    terms: Seq<Seq<char>>,
    heads: Seq<Seq<char>>,
    h: int,
    ws: Seq<Seq<char>>,
    m: int,
    n: int,
)
    requires
        0 <= m <= n,
        rule_prefix(terms, heads, h, ws, m) is Err,
    ensures
        rule_prefix(terms, heads, h, ws, n) == rule_prefix(terms, heads, h, ws, m),
    decreases n - m,
{
    if m < n {
        lemma_rule_prefix_stuck(terms, heads, h, ws, m, n - 1);
    }
}

proof fn lemma_rule_productions_stuck(
    terms: Seq<Seq<char>>,
    heads: Seq<Seq<char>>,
    ls: Seq<Seq<Seq<char>>>,
    m: int,
    n: int,
)
    requires
        0 <= m <= n,
        rule_productions(terms, heads, ls, m) is Err,
    ensures
        rule_productions(terms, heads, ls, n) == rule_productions(terms, heads, ls, m),
    decreases n - m,
{
    if m < n {
        lemma_rule_productions_stuck(terms, heads, ls, m, n - 1);
    }
}

/// Every symbol refers to a terminal below `nt` or a nonterminal from 1 to `nh`.
pub open spec fn symbols_in_range(w: Seq<Symbol>, nt: int, nh: int) -> bool {
    forall|i: int| 0 <= i < w.len() ==> match #[trigger] w[i] {
        Symbol::Terminal(t) => t < nt,
        Symbol::NonTerminal(n) => 1 <= n <= nh,
    }
}

pub open spec fn productions_in_range(ps: Seq<(int, Seq<Symbol>)>, nt: int, nh: int) -> bool {
    forall|p: int| 0 <= p < ps.len() ==> 1 <= (#[trigger] ps[p]).0 <= nh && symbols_in_range(ps[p].1, nt, nh)
}

proof fn lemma_rule_prefix_in_range(terms: Seq<Seq<char>>, heads: Seq<Seq<char>>, h: int, ws: Seq<Seq<char>>, n: int)
    requires
        1 <= h <= heads.len(),
        terms.len() + heads.len() + 3 < usize::MAX,
    ensures
        rule_prefix(terms, heads, h, ws, n) matches Ok(st) ==> productions_in_range(st.0, terms.len() as int, heads.len() as int)
            && symbols_in_range(st.1, terms.len() as int, heads.len() as int),
    decreases n,
{
    if n > 0 {
        lemma_rule_prefix_in_range(terms, heads, h, ws, n - 1);
        if let Ok(st) = rule_prefix(terms, heads, h, ws, n - 1) {
            if ws[n - 1] != "|"@ {
                let w = ws[n - 1];
                lemma_first_index_some(terms, w, 0);
                lemma_first_index_some(heads, w, 0);
                if let Some(syms) = resolve_word(terms, heads, w) {
                    let c = st.1 + syms;
                    assert forall|i: int| 0 <= i < c.len() implies match #[trigger] c[i] {
                        Symbol::Terminal(t) => t < terms.len(),
                        Symbol::NonTerminal(k) => 1 <= k <= heads.len(),
                    } by {
                        if i >= st.1.len() {
                            assert(c[i] == syms[i - st.1.len()]);
                        } else {
                            assert(c[i] == st.1[i]);
                        }
                    }
                }
            } else {
                let d = st.0.push((h, st.1));
                assert forall|p: int| 0 <= p < d.len() implies 1 <= (#[trigger] d[p]).0 <= heads.len() && symbols_in_range(d[p].1, terms.len() as int, heads.len() as int) by {
                    if p < st.0.len() {
                        assert(d[p] == st.0[p]);
                    }
                }
            }
        }
    }
}

proof fn lemma_rule_productions_in_range(terms: Seq<Seq<char>>, heads: Seq<Seq<char>>, ls: Seq<Seq<Seq<char>>>, i: int)
    requires
        0 <= i <= ls.len(),
        terms.len() + heads.len() + 3 < usize::MAX,
        heads == rule_heads(ls, ls.len() as int),
    ensures
        rule_productions(terms, heads, ls, i) matches Ok(ps) ==> productions_in_range(ps, terms.len() as int, heads.len() as int),
    decreases i,
{
    if i > 0 {
        lemma_rule_productions_in_range(terms, heads, ls, i - 1);
        if let Ok(ps) = rule_productions(terms, heads, ls, i - 1) {
            let l = ls[i - 1];
            if is_rule_line(l) {
                lemma_rule_head_listed(ls, i - 1, ls.len() as int);
                lemma_first_index_contains(heads, l[0]);
                let h = first_index(heads, l[0], 0)->0 + 1;
                let ws = l.subrange(2, l.len() as int);
                lemma_rule_prefix_in_range(terms, heads, h, ws, ws.len() as int);
                if let Ok(more) = line_productions(terms, heads, l) {
                    let all = ps + more;
                    let st = rule_prefix(terms, heads, h, ws, ws.len() as int)->Ok_0;
                    assert(more == st.0.push((h, st.1)));
                    assert forall|p: int| 0 <= p < all.len() implies 1 <= (#[trigger] all[p]).0 <= heads.len() && symbols_in_range(all[p].1, terms.len() as int, heads.len() as int) by {
                        if p < ps.len() {
                            assert(all[p] == ps[p]);
                        } else if p - ps.len() < st.0.len() {
                            assert(all[p] == st.0[p - ps.len()]);
                        } else {
                            assert(all[p] == (h, st.1));
                        }
                    }
                }
            }
        }
    }
}

impl Grammar {
    /// A grammar just loaded from text, before its FIRST sets are computed,
    /// is well shaped.
    proof fn lemma_loaded_shape(&self, tv: Seq<Seq<char>>, hv: Seq<Seq<char>>, ls: Seq<Seq<Seq<char>>>, nl: int)
        requires
            nl == ls.len(),
            hv == rule_heads(ls, nl),
            hv.len() > 0,
            names_view(self.token_list@) == tv,
            self.nonterminals@.len() == hv.len() + 1,
            rule_productions(tv, hv, ls, nl) is Ok,
            productions_view(self.productions@) == seq![(0int, seq![Symbol::NonTerminal(1)])] + rule_productions(tv, hv, ls, nl)->Ok_0,
            tv.len() + hv.len() + 3 < usize::MAX,
            forall|q: int| 0 <= q < self.productions@.len() ==> #[trigger] self.productions@[q].body@.len() + 2 < usize::MAX,
            self.first_sets@.len() == self.nonterminals@.len(),
            self.nullable@.len() == self.nonterminals@.len(),
            forall|q: int| 0 <= q < self.first_sets@.len() ==> #[trigger] self.first_sets@[q]@.len() == tv.len(),
        ensures
            self.shape_ok(),
    {
        lemma_rule_productions_in_range(tv, hv, ls, nl);
        let ps = rule_productions(tv, hv, ls, nl)->Ok_0;
        let all = productions_view(self.productions@);
        assert(self.num_terminals() == tv.len());
        assert(all.len() == self.productions@.len());
        assert(all[0] == (self.productions@[0].head as int, self.productions@[0].body@));
        assert(all[0] == (0int, seq![Symbol::NonTerminal(1)]));
        assert(self.body(0) =~= seq![Symbol::NonTerminal(1)]);
        assert forall|p: int| 1 <= p < self.productions@.len() implies 1 <= #[trigger] self.head(p) <= hv.len()
            && symbols_in_range(self.body(p), tv.len() as int, hv.len() as int) by {
            assert(all[p] == (self.productions@[p].head as int, self.productions@[p].body@));
            assert(all[p] == ps[p - 1]);
        }
        assert forall|p: int| 0 <= p < self.productions@.len() implies 0 <= #[trigger] self.head(p) < self.num_nonterminals() by {
            if p > 0 {
                assert(1 <= self.head(p) <= hv.len());
            }
        }
        assert forall|p: int| 1 <= p < self.productions@.len() implies #[trigger] self.head(p) != 0 by {
            assert(1 <= self.head(p) <= hv.len());
        }
        assert forall|p: int, i: int| 0 <= p < self.productions@.len() && 0 <= i < self.body(p).len() implies self.symbol_ok(#[trigger] self.body(p)[i])
            && self.body(p)[i] != Symbol::NonTerminal(0) by {
            if p > 0 {
                assert(1 <= self.head(p) <= hv.len());
                assert(symbols_in_range(self.body(p), tv.len() as int, hv.len() as int));
            }
        }
        assert forall|p: int| 0 <= p < self.productions@.len() implies #[trigger] self.body(p).len() + 2 < usize::MAX by {
            assert(self.productions@[p].body@.len() + 2 < usize::MAX);
        }
    }
}

impl Grammar {
    /// An empty grammar, to be filled by `grammar_load`.
    pub fn new() -> (g: Grammar)
        ensures
            g.token_list@.len() == 0,
            g.nonterminals@.len() == 0,
            g.productions@.len() == 0,
            g.first_sets@.len() == 0,
            g.nullable@.len() == 0,
            g.start_symbol@.len() == 0,
    {
        Grammar {
            token_list: Vec::new(),
            nonterminals: Vec::new(),
            productions: Vec::new(),
            first_sets: Vec::new(),
            nullable: Vec::new(),
            start_symbol: String::new(),
        }
    }

    /// Loads a grammar from its text and computes its FIRST sets. Lines
    /// whose first word starts with a brace are ignored; `%token A B ...`
    /// declares terminals; `head : a b | c ...` gives the alternatives of
    /// `head`, where each word is a declared terminal, a rule head, or `ε`.
    /// The first rule's head is the start symbol.
    pub fn grammar_load(&mut self, text: &str) -> (r: Result<(), GrammarError>)
        ensures
            match grammar_of_text(text@) {
                Ok(m) => {
                    &&& r is Ok
                    &&& final(self).wf()
                    &&& final(self).first_least()
                    &&& names_view(final(self).token_list@) == m.0
                    &&& names_view(final(self).nonterminals@) == m.1
                    &&& productions_view(final(self).productions@) == m.2
                    &&& final(self).start_symbol@ == m.1[0]
                },
                Err(e) => r == Err::<(), GrammarError>(e),
            },
    {
        let chars = chars_of(text);
        let lines = split_lines(&chars);
        let ghost ls = lines_view(lines@);
        let ghost nl = ls.len() as int;
        assert(ls == grammar_lines(text@));
        let mut i: usize = 0;
        while i < lines.len()
            invariant
                ls == lines_view(lines@),
                ls == grammar_lines(text@),
                nl == ls.len(),
                i <= nl,
                first_malformed(ls, i as int) is None,
            decreases nl - i,
        {
            proof {
                assert(ls[i as int] == words_view(lines@[i as int]@));
            }
            if l_malformed(&lines[i]) {
                proof {
                    assert(first_malformed(ls, i as int + 1) == Some(i as int));
                    lemma_first_malformed_stays(ls, i as int + 1, nl);
                    assert(first_malformed(ls, nl) == Some(i as int));
                    assert(grammar_of_text(text@) == Err::<(Seq<Seq<char>>, Seq<Seq<char>>, Seq<(int, Seq<Symbol>)>), GrammarError>(GrammarError::MalformedLine(i)));
                }
                return Err(GrammarError::MalformedLine(i));
            }
            i = i + 1;
        }
        let mut terms: Vec<Vec<char>> = Vec::new();
        let mut heads: Vec<Vec<char>> = Vec::new();
        let mut i: usize = 0;
        while i < lines.len()
            invariant
                ls == lines_view(lines@),
                ls == grammar_lines(text@),
                nl == ls.len(),
                i <= nl,
                words_view(terms@) == declared_terminals(ls, i as int),
                words_view(heads@) == rule_heads(ls, i as int),
                first_malformed(ls, nl) is None,
            decreases nl - i,
        {
            proof {
                assert(ls[i as int] == words_view(lines@[i as int]@));
            }
            let l = &lines[i];
            if is_token_decl(l) {
                let mut j: usize = 1;
                while j < l.len()
                    invariant
                        ls == lines_view(lines@),
                        ls == grammar_lines(text@),
                        nl == ls.len(),
                        i < nl,
                        *l == lines@[i as int],
                        ls[i as int] == words_view(l@),
                        1 <= j <= l@.len(),
                        words_view(terms@) == declared_terminals(ls, i as int) + ls[i as int].subrange(1, j as int),
                    decreases l@.len() - j,
                {
                    let ghost before = words_view(terms@);
                    terms.push(copy_vec(&l[j]));
                    proof {
                        assert(words_view(terms@) =~= before.push(l@[j as int]@));
                        assert(ls[i as int].subrange(1, j + 1) =~= ls[i as int].subrange(1, j as int).push(l@[j as int]@));
                    }
                    j = j + 1;
                }
                proof {
                    assert(ls[i as int].subrange(1, l@.len() as int) =~= ls[i as int].subrange(1, ls[i as int].len() as int));
                }
            }
            if is_rule(l) {
                let ghost before = words_view(heads@);
                match index_of(&heads, &l[0]) {
                    Some(_) => {
                        proof {
                            lemma_first_index_contains(before, l@[0]@);
                        }
                    },
                    None => {
                        heads.push(copy_vec(&l[0]));
                        proof {
                            lemma_first_index_contains(before, l@[0]@);
                            assert(words_view(heads@) =~= before.push(l@[0]@));
                        }
                    },
                }
            }
            i = i + 1;
        }
        if heads.len() == 0 {
            return Err(GrammarError::NoProductions);
        }
        let ghost tv = words_view(terms@);
        let ghost hv = words_view(heads@);
        let mut start_body: Vec<Symbol> = Vec::new();
        start_body.push(Symbol::NonTerminal(1));
        let mut prods: Vec<Production> = Vec::new();
        prods.push(Production { head: 0, body: start_body });
        let ghost base = productions_view(prods@);
        proof {
            assert(base =~= seq![(0int, seq![Symbol::NonTerminal(1)])]);
        }
        let mut i: usize = 0;
        while i < lines.len()
            invariant
                ls == lines_view(lines@),
                ls == grammar_lines(text@),
                nl == ls.len(),
                i <= nl,
                tv == words_view(terms@),
                hv == words_view(heads@),
                tv == declared_terminals(ls, nl),
                hv == rule_heads(ls, nl),
                hv.len() > 0,
                first_malformed(ls, nl) is None,
                base == seq![(0int, seq![Symbol::NonTerminal(1)])],
                rule_productions(tv, hv, ls, i as int) is Ok,
                productions_view(prods@) == base + rule_productions(tv, hv, ls, i as int)->Ok_0,
            decreases nl - i,
        {
            proof {
                assert(ls[i as int] == words_view(lines@[i as int]@));
            }
            let l = &lines[i];
            if is_rule(l) {
                proof {
                    lemma_rule_head_listed(ls, i as int, nl);
                    lemma_first_index_contains(hv, ls[i as int][0]);
                }
                let k = index_of(&heads, &l[0]).unwrap();
                assert(k < heads.len());
                let h = k + 1;
                let ghost ws = ls[i as int].subrange(2, ls[i as int].len() as int);
                let ghost start_len = prods@.len();
                let ghost ps0 = productions_view(prods@);
                let mut cur: Vec<Symbol> = Vec::new();
                let mut j: usize = 2;
                assert(productions_view(prods@).subrange(start_len as int, prods@.len() as int) =~= Seq::<(int, Seq<Symbol>)>::empty());
                assert(cur@ =~= Seq::<Symbol>::empty());
                assert(rule_prefix(tv, hv, h as int, ws, 0) == Ok::<(Seq<(int, Seq<Symbol>)>, Seq<Symbol>), int>((Seq::<(int, Seq<Symbol>)>::empty(), Seq::<Symbol>::empty())));
                while j < l.len()
                    invariant
                        ls == lines_view(lines@),
                        ls == grammar_lines(text@),
                        nl == ls.len(),
                        i < nl,
                        *l == lines@[i as int],
                        ls[i as int] == words_view(l@),
                        ws == ls[i as int].subrange(2, ls[i as int].len() as int),
                        tv == words_view(terms@),
                        hv == words_view(heads@),
                        h == first_index(hv, ls[i as int][0], 0)->0 + 1,
                        is_rule_line(ls[i as int]),
                        tv == declared_terminals(ls, nl),
                        hv == rule_heads(ls, nl),
                        hv.len() > 0,
                        first_malformed(ls, nl) is None,
                        rule_productions(tv, hv, ls, i as int) is Ok,
                        2 <= j <= l@.len(),
                        prods@.len() >= start_len,
                        productions_view(prods@).subrange(0, start_len as int) == ps0,
                        rule_prefix(tv, hv, h as int, ws, j - 2) == Ok::<(Seq<(int, Seq<Symbol>)>, Seq<Symbol>), int>((productions_view(prods@).subrange(start_len as int, prods@.len() as int), cur@)),
                    decreases l@.len() - j,
                {
                    let bar = chars_of("|");
                    let ghost pv = productions_view(prods@);
                    assert(ws[j - 2] == l@[j as int]@);
                    if chars_equal(&l[j], &bar) {
                        let body = cur;
                        cur = Vec::new();
                        prods.push(Production { head: h, body });
                        proof {
                            assert(productions_view(prods@) =~= pv.push((h as int, body@)));
                            assert(productions_view(prods@).subrange(0, start_len as int) =~= ps0);
                            assert(productions_view(prods@).subrange(start_len as int, prods@.len() as int) =~= pv.subrange(start_len as int, pv.len() as int).push((h as int, body@)));
                        }
                    } else {
                        match resolve(&terms, &heads, &l[j]) {
                            None => {
                                proof {
                                    assert(ws[j - 2] != "|"@);
                                    assert(rule_prefix(tv, hv, h as int, ws, j - 1) == Err::<(Seq<(int, Seq<Symbol>)>, Seq<Symbol>), int>(j - 2));
                                    lemma_rule_prefix_stuck(tv, hv, h as int, ws, j - 1, ws.len() as int);
                                    assert(line_productions(tv, hv, ls[i as int]) == Err::<Seq<(int, Seq<Symbol>)>, int>(j as int));
                                    lemma_rule_productions_stuck(tv, hv, ls, i as int + 1, nl);
                                }
                                return Err(GrammarError::UndefinedSymbol(i, j));
                            },
                            Some(None) => {
                                proof {
                                    assert(cur@ + Seq::<Symbol>::empty() =~= cur@);
                                }
                            },
                            Some(Some(x)) => {
                                let ghost c0 = cur@;
                                cur.push(x);
                                proof {
                                    assert(cur@ =~= c0 + seq![x]);
                                }
                            },
                        }
                    }
                    j = j + 1;
                }
                let ghost pv = productions_view(prods@);
                let ghost body = cur@;
                prods.push(Production { head: h, body: cur });
                proof {
                    assert(ws.len() == l@.len() - 2);
                    assert(productions_view(prods@) =~= pv.push((h as int, body)));
                    let more = line_productions(tv, hv, ls[i as int]);
                    assert(more == Ok::<Seq<(int, Seq<Symbol>)>, int>(pv.subrange(start_len as int, pv.len() as int).push((h as int, body))));
                    assert(pv =~= ps0 + pv.subrange(start_len as int, pv.len() as int));
                    assert(productions_view(prods@) =~= ps0 + more->Ok_0);
                }
            }
            i = i + 1;
        }
        let nt = terms.len();
        let nh = heads.len();
        if nt >= usize::MAX - 3 || nh >= usize::MAX - 3 - nt {
            proof {
                assert(tv.len() + hv.len() + 3 >= usize::MAX);
            }
            return Err(GrammarError::TooLarge);
        }
        let ghost all = productions_view(prods@);
        assert(all == seq![(0int, seq![Symbol::NonTerminal(1)])] + rule_productions(tv, hv, ls, nl)->Ok_0);
        let mut p: usize = 0;
        while p < prods.len()
            invariant
                ls == grammar_lines(text@),
                nl == ls.len(),
                tv == declared_terminals(ls, nl),
                hv == rule_heads(ls, nl),
                hv.len() > 0,
                first_malformed(ls, nl) is None,
                rule_productions(tv, hv, ls, nl) is Ok,
                all == productions_view(prods@),
                all == seq![(0int, seq![Symbol::NonTerminal(1)])] + rule_productions(tv, hv, ls, nl)->Ok_0,
                tv.len() + hv.len() + 3 < usize::MAX,
                p <= prods@.len(),
                forall|q: int| 0 <= q < p ==> #[trigger] prods@[q].body@.len() + 2 < usize::MAX,
            decreases prods@.len() - p,
        {
            if prods[p].body.len() >= usize::MAX - 2 {
                proof {
                    assert(all[p as int] == (prods@[p as int].head as int, prods@[p as int].body@));
                    assert(all[p as int].1.len() + 2 >= usize::MAX);
                }
                return Err(GrammarError::TooLarge);
            }
            p = p + 1;
        }
        proof {
            lemma_rule_productions_in_range(tv, hv, ls, nl);
            let ps = rule_productions(tv, hv, ls, nl)->Ok_0;
            assert forall|q: int| 0 <= q < prods@.len() implies #[trigger] prods@[q].head < nh + 1 by {
                assert(all[q] == (prods@[q].head as int, prods@[q].body@));
                if q > 0 {
                    assert(all[q] == ps[q - 1]);
                }
            }
            assert forall|q: int, j: int| 0 <= q < prods@.len() && 0 <= j < prods@[q].body@.len()
                implies (#[trigger] prods@[q].body@[j] matches Symbol::NonTerminal(m) ==> m < nh + 1) by {
                assert(all[q] == (prods@[q].head as int, prods@[q].body@));
                if q > 0 {
                    assert(all[q] == ps[q - 1]);
                    assert(symbols_in_range(ps[q - 1].1, tv.len() as int, hv.len() as int));
                } else {
                    assert(prods@[0].body@ == seq![Symbol::NonTerminal(1)]);
                }
            }
        }
        let flags = productive_flags(&prods, nh + 1);
        let mut n: usize = 1;
        while n < nh + 1
            invariant
                ls == grammar_lines(text@),
                nl == ls.len(),
                tv == declared_terminals(ls, nl),
                hv == rule_heads(ls, nl),
                hv.len() == nh,
                hv.len() > 0,
                first_malformed(ls, nl) is None,
                rule_productions(tv, hv, ls, nl) is Ok,
                all == productions_view(prods@),
                all == seq![(0int, seq![Symbol::NonTerminal(1)])] + rule_productions(tv, hv, ls, nl)->Ok_0,
                tv.len() + hv.len() + 3 < usize::MAX,
                forall|q: int| 0 <= q < prods@.len() ==> #[trigger] prods@[q].body@.len() + 2 < usize::MAX,
                flags@.len() == nh + 1,
                forall|m: int| 0 <= m < nh + 1 ==> #[trigger] flags@[m] == productive(all, m),
                1 <= n <= nh + 1,
                first_unproductive(all, nh + 1, n as int) == first_unproductive(all, nh + 1, 1),
            decreases nh + 1 - n,
        {
            if !flags[n] {
                proof {
                    assert(first_unproductive(all, nh + 1, n as int) == Some(n as int));
                }
                return Err(GrammarError::Unproductive(n));
            }
            n = n + 1;
        }
        let mut aug = copy_vec(&heads[0]);
        aug.push('\'');
        let mut names: Vec<Vec<char>> = Vec::new();
        names.push(aug);
        let mut k: usize = 0;
        while k < heads.len()
            invariant
                k <= heads@.len(),
                words_view(names@) == seq![words_view(heads@)[0].push('\'')] + words_view(heads@).subrange(0, k as int),
            decreases heads@.len() - k,
        {
            let ghost before = words_view(names@);
            names.push(copy_vec(&heads[k]));
            proof {
                assert(words_view(names@) =~= before.push(heads@[k as int]@));
                assert(words_view(heads@).subrange(0, k + 1) =~= words_view(heads@).subrange(0, k as int).push(heads@[k as int]@));
            }
            k = k + 1;
        }
        proof {
            assert(words_view(heads@).subrange(0, heads@.len() as int) =~= words_view(heads@));
        }
        let nn = names.len();
        let mut fs: Vec<Vec<bool>> = Vec::new();
        let mut k: usize = 0;
        while k < nn
            invariant
                k <= nn,
                fs@.len() == k,
                forall|q: int| 0 <= q < k ==> #[trigger] fs@[q]@.len() == nt,
            decreases nn - k,
        {
            fs.push(falses_vec(nt));
            k = k + 1;
        }
        self.token_list = strings_of(&terms);
        self.nonterminals = strings_of(&names);
        self.start_symbol = string_of_range(&names[0], 0, names[0].len());
        self.productions = prods;
        self.first_sets = fs;
        self.nullable = falses_vec(nn);
        proof {
            assert(names_view(self.nonterminals@)[0] == words_view(names@)[0]);
            assert(names@[0]@.subrange(0, names@[0]@.len() as int) =~= names@[0]@);
            self.lemma_loaded_shape(tv, hv, ls, nl);
        }
        self.calculate_first_sets();
        Ok(())
    }
}

} // verus!
