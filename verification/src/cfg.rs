pub mod scan;

use crate::composition::{Instrument, Volume};
use rand::Rng;
use crate::time::{frac_eq, MtV, MusicTime};
use vstd::prelude::*;
use vstd::string::StringSliceAdditionalSpecFns;

verus! {

/// A named placeholder symbol subject to rewriting.
#[derive(Debug, Clone)]
pub enum NonTerminal {
    Custom(String),
}

/// The name a nonterminal carries.
pub open spec fn nt_name(nt: NonTerminal) -> Seq<char> {
    match nt {
        NonTerminal::Custom(s) => s@,
    }
}

/// Nonterminals are identified by their name.
pub open spec fn nt_eqv(a: NonTerminal, b: NonTerminal) -> bool {
    nt_name(a) == nt_name(b)
}

impl NonTerminal {
    /// Name equality, the identity of grammar symbols.
    pub fn same(&self, other: &NonTerminal) -> (r: bool)
        ensures
            r == nt_eqv(*self, *other),
    {
        match (self, other) {
            (NonTerminal::Custom(a), NonTerminal::Custom(b)) => *a == *b,
        }
    }
}

/// A note or a rest, the sounding part of a music terminal.
#[derive(Debug, Clone, Copy, PartialEq, Eq, Structural)]
pub enum TerminalNote {
    Note { pitch: crate::composition::Pitch },
    Rest,
}

/// A control action: switch instrument or loudness from here on.
#[derive(Debug, Clone, Copy, PartialEq, Eq, Structural)]
pub enum MetaControl {
    ChangeInstrument(Instrument),
    ChangeVolume(Volume),
}

/// A symbol that directly denotes sound or a control action.
#[derive(Debug, Clone)]
pub enum Terminal {
    Music { duration: MusicTime, note: TerminalNote },
    Meta(MetaControl),
}

/// A nonterminal or a terminal: the atomic unit of a derivation.
#[derive(Debug, Clone)]
pub enum Symbol {
    NT(NonTerminal),
    T(Terminal),
}

/// One element of a music string: a plain symbol, parallel branches that
/// must compile to equal durations, or a repeated sub-phrase.
#[derive(Debug)]
pub enum MusicPrimitive {
    Simple(Symbol),
    Split { branches: Vec<MusicString> },
    Repeat { num: usize, content: MusicString },
}

/// An ordered sequence of music primitives: the unit that is parsed,
/// rewritten, and compiled.
#[derive(Debug)]
pub struct MusicString(pub Vec<MusicPrimitive>);

/// One rewrite rule: the left-hand nonterminal and its replacement.
#[derive(Debug)]
pub struct Production(pub NonTerminal, pub MusicString);

/// A start symbol with an unordered list of productions; several
/// productions may share a left-hand nonterminal.
#[derive(Debug)]
pub struct Grammar {
    pub start: NonTerminal,
    pub productions: Vec<Production>,
}

/// The first production whose left-hand side carries the name.
pub open spec fn spec_get_production(prods: Seq<Production>, name: Seq<char>) -> Option<Production>
    decreases prods.len(),
{
    if prods.len() == 0 {
        None
    } else if nt_name(prods[0].0) == name {
        Some(prods[0])
    } else {
        spec_get_production(prods.drop_first(), name)
    }
}

impl Grammar {
    pub fn new(start: NonTerminal, productions: Vec<Production>) -> (r: Grammar)
        ensures
            r.start == start,
            r.productions == productions,
    {
        Grammar { start, productions }
    }

    pub open spec fn spec_start(&self) -> NonTerminal {
        self.start
    }

    pub open spec fn spec_productions(&self) -> Seq<Production> {
        self.productions@
    }

    /// The start symbol.
    pub fn get_start(&self) -> (r: &NonTerminal)
        ensures
            *r == self.spec_start(),
    {
        &self.start
    }

    /// The first production for `nt`, or none.
    pub fn get_production(&self, nt: &NonTerminal) -> (r: Option<&Production>)
        ensures
            match r {
                Some(p) => spec_get_production(self.spec_productions(), nt_name(*nt)) == Some(*p),
                None => spec_get_production(self.spec_productions(), nt_name(*nt)) is None,
            },
    {
        let ghost name = nt_name(*nt);
        let ghost prods = self.productions@;
        proof {
            assert(prods.subrange(0, prods.len() as int) =~= prods);
        }
        let mut i: usize = 0;
        while i < self.productions.len()
            invariant
                i <= prods.len(),
                prods == self.productions@,
                name == nt_name(*nt),
                spec_get_production(prods, name) == spec_get_production(
                    prods.subrange(i as int, prods.len() as int),
                    name,
                ),
            decreases self.productions.len() - i,
        {
            proof {
                let rest = prods.subrange(i as int, prods.len() as int);
                assert(rest[0] == prods[i as int]);
                assert(rest.drop_first() =~= prods.subrange(i as int + 1, prods.len() as int));
            }
            if self.productions[i].0.same(nt) {
                return Some(&self.productions[i]);
            }
            i += 1;
        }
        proof {
            assert(prods.subrange(prods.len() as int, prods.len() as int) =~= Seq::<
                Production,
            >::empty());
        }
        None
    }

    /// One production for `nt` picked uniformly at random among all whose
    /// left-hand side matches, or none when no production matches.
    pub fn get_production_random(&self, nt: &NonTerminal) -> (r: Option<&Production>)
        ensures
            match r {
                Some(p) => exists|i: int|
                    0 <= i < self.spec_productions().len() && self.spec_productions()[i] == *p
                        && nt_name(#[trigger] self.spec_productions()[i].0) == nt_name(*nt),
                None => forall|i: int|
                    0 <= i < self.spec_productions().len() ==> nt_name(
                        #[trigger] self.spec_productions()[i].0,
                    ) != nt_name(*nt),
            },
    {
        let ghost prods = self.productions@;
        let mut matches: Vec<usize> = Vec::new();
        let mut i: usize = 0;
        while i < self.productions.len()
            invariant
                i <= prods.len(),
                prods == self.productions@,
                forall|k: int|
                    0 <= k < matches@.len() ==> #[trigger] matches@[k] < i && nt_name(
                        prods[matches@[k] as int].0,
                    ) == nt_name(*nt),
                forall|j: int|
                    0 <= j < i && nt_name(#[trigger] prods[j].0) == nt_name(*nt) ==> exists|k: int|
                        0 <= k < matches@.len() && matches@[k] == j,
            decreases self.productions.len() - i,
        {
            let ghost pre = matches@;
            if self.productions[i].0.same(nt) {
                matches.push(i);
            }
            proof {
                assert forall|j: int|
                    0 <= j < i as int + 1 && nt_name(#[trigger] prods[j].0) == nt_name(
                        *nt,
                    ) implies exists|k: int| 0 <= k < matches@.len() && matches@[k] == j by {
                    if j < i as int {
                        let k0 = choose|k: int| 0 <= k < pre.len() && pre[k] == j;
                        assert(matches@[k0] == j);
                    } else {
                        assert(nt_name(prods[i as int].0) == nt_name(*nt));
                        assert(matches@[matches@.len() - 1] == i as int);
                    }
                }
            }
            i += 1;
        }
        if matches.len() == 0 {
            proof {
                assert forall|j: int|
                    0 <= j < prods.len() implies nt_name(#[trigger] prods[j].0) != nt_name(
                    *nt,
                ) by {
                    if nt_name(prods[j].0) == nt_name(*nt) {
                        assert(exists|k: int| 0 <= k < matches@.len() && matches@[k] == j);
                    }
                }
            }
            None
        } else {
            let pick = random_below(matches.len());
            let idx = matches[pick];
            proof {
                assert(matches@[pick as int] == idx);
                assert(idx < prods.len() && nt_name(prods[idx as int].0) == nt_name(*nt));
                assert(self.spec_productions()[idx as int] == prods[idx as int]);
            }
            Some(&self.productions[idx])
        }
    }
}

/// Relies on `rand::thread_rng` and `rand::Rng::gen_range`: a uniformly
/// random index strictly below `n`. Nothing more is assumed of the value.
#[verifier::external_body]
fn random_below(n: usize) -> (r: usize)
    requires
        n > 0,
    ensures
        r < n,
{
    rand::thread_rng().gen_range(0..n)
}

} // verus!

verus! {

/// Mathematical value of a terminal.
pub ghost enum TermV {
    Music { duration: MtV, note: TerminalNote },
    Meta(MetaControl),
}

/// Mathematical value of a symbol.
pub ghost enum SymV {
    NT(Seq<char>),
    T(TermV),
}

/// Mathematical value of a music primitive; a music string's value is a
/// sequence of these.
pub ghost enum PrimV {
    Simple(SymV),
    Split(Seq<Seq<PrimV>>),
    Repeat(int, Seq<PrimV>),
}

pub open spec fn sym_view(s: Symbol) -> SymV {
    match s {
        Symbol::NT(nt) => SymV::NT(nt_name(nt)),
        Symbol::T(Terminal::Music { duration, note }) => SymV::T(
            TermV::Music { duration: duration@, note },
        ),
        Symbol::T(Terminal::Meta(m)) => SymV::T(TermV::Meta(m)),
    }
}

pub open spec fn prim_view(p: MusicPrimitive) -> PrimV
    decreases p,
{
    match p {
        MusicPrimitive::Simple(s) => PrimV::Simple(sym_view(s)),
        MusicPrimitive::Split { branches } => PrimV::Split(strs_view(branches@)),
        MusicPrimitive::Repeat { num, content } => PrimV::Repeat(
            num as int,
            prims_view(content.0@),
        ),
    }
}

pub open spec fn prims_view(ps: Seq<MusicPrimitive>) -> Seq<PrimV>
    decreases ps,
{
    if ps.len() == 0 {
        Seq::empty()
    } else {
        prims_view(ps.drop_last()).push(prim_view(ps.last()))
    }
}

pub open spec fn strs_view(ss: Seq<MusicString>) -> Seq<Seq<PrimV>>
    decreases ss,
{
    if ss.len() == 0 {
        Seq::empty()
    } else {
        strs_view(ss.drop_last()).push(prims_view(ss.last().0@))
    }
}

/// Mathematical value of a production: left-hand name and replacement.
pub ghost struct ProdV {
    pub name: Seq<char>,
    pub rhs: Seq<PrimV>,
}

pub open spec fn prod_view(p: Production) -> ProdV {
    ProdV { name: nt_name(p.0), rhs: prims_view(p.1.0@) }
}

pub open spec fn prods_view(ps: Seq<Production>) -> Seq<ProdV>
    decreases ps,
{
    if ps.len() == 0 {
        Seq::empty()
    } else {
        prods_view(ps.drop_last()).push(prod_view(ps.last()))
    }
}

impl View for MusicString {
    type V = Seq<PrimV>;

    open spec fn view(&self) -> Seq<PrimV> {
        prims_view(self.0@)
    }
}

impl View for Grammar {
    type V = Seq<ProdV>;

    open spec fn view(&self) -> Seq<ProdV> {
        prods_view(self.productions@)
    }
}

} // verus!

verus! {

/// Views index pointwise: element `i` of the view is the view of element `i`.
pub proof fn lemma_prims_view_index(ps: Seq<MusicPrimitive>)
    ensures
        prims_view(ps).len() == ps.len(),
        forall|i: int| 0 <= i < ps.len() ==> prims_view(ps)[i] == prim_view(ps[i]),
    decreases ps.len(),
{
    if ps.len() > 0 {
        lemma_prims_view_index(ps.drop_last());
    }
}

pub proof fn lemma_prims_view_push(ps: Seq<MusicPrimitive>, p: MusicPrimitive)
    ensures
        prims_view(ps.push(p)) == prims_view(ps).push(prim_view(p)),
{
    assert(ps.push(p).drop_last() =~= ps);
    assert(ps.push(p).last() == p);
}

pub proof fn lemma_prims_view_concat(a: Seq<MusicPrimitive>, b: Seq<MusicPrimitive>)
    ensures
        prims_view(a + b) == prims_view(a) + prims_view(b),
    decreases b.len(),
{
    if b.len() == 0 {
        assert(a + b =~= a);
        assert(prims_view(a) + prims_view(b) =~= prims_view(a));
    } else {
        lemma_prims_view_concat(a, b.drop_last());
        assert((a + b).drop_last() =~= a + b.drop_last());
        assert((a + b).last() == b.last());
        assert(prims_view(a) + prims_view(b) =~= (prims_view(a) + prims_view(
            b.drop_last(),
        )).push(prim_view(b.last())));
    }
}

pub proof fn lemma_strs_view_index(ss: Seq<MusicString>)
    ensures
        strs_view(ss).len() == ss.len(),
        forall|i: int| 0 <= i < ss.len() ==> strs_view(ss)[i] == prims_view(ss[i].0@),
    decreases ss.len(),
{
    if ss.len() > 0 {
        lemma_strs_view_index(ss.drop_last());
    }
}

pub proof fn lemma_strs_view_push(ss: Seq<MusicString>, s: MusicString)
    ensures
        strs_view(ss.push(s)) == strs_view(ss).push(prims_view(s.0@)),
{
    assert(ss.push(s).drop_last() =~= ss);
    assert(ss.push(s).last() == s);
}

pub proof fn lemma_prods_view_index(ps: Seq<Production>)
    ensures
        prods_view(ps).len() == ps.len(),
        forall|i: int| 0 <= i < ps.len() ==> prods_view(ps)[i] == prod_view(ps[i]),
    decreases ps.len(),
{
    if ps.len() > 0 {
        lemma_prods_view_index(ps.drop_last());
    }
}

/// The first production in view form whose left-hand name matches.
pub open spec fn spec_get_prod(prods: Seq<ProdV>, name: Seq<char>) -> Option<ProdV>
    decreases prods.len(),
{
    if prods.len() == 0 {
        None
    } else if prods[0].name == name {
        Some(prods[0])
    } else {
        spec_get_prod(prods.drop_first(), name)
    }
}

/// Production lookup commutes with taking views.
pub proof fn lemma_get_production_view(prods: Seq<Production>, name: Seq<char>)
    ensures
        match spec_get_production(prods, name) {
            Some(p) => spec_get_prod(prods_view(prods), name) == Some(prod_view(p)),
            None => spec_get_prod(prods_view(prods), name) is None,
        },
    decreases prods.len(),
{
    lemma_prods_view_index(prods);
    if prods.len() > 0 {
        let pv = prods_view(prods);
        assert(pv[0] == prod_view(prods[0]));
        if nt_name(prods[0].0) == name {
        } else {
            lemma_get_production_view(prods.drop_first(), name);
            lemma_prods_view_index(prods.drop_first());
            assert(pv.drop_first() =~= prods_view(prods.drop_first()));
        }
    }
}

/// What one primitive becomes in a parallel rewrite step with first-match
/// production choice: a nonterminal is replaced by its production's
/// replacement (or dropped when none exists), a terminal is kept, and
/// splits and repeats are rewritten recursively in place.
pub open spec fn spec_rewrite_one(p: PrimV, prods: Seq<ProdV>) -> Seq<PrimV>
    decreases p,
{
    match p {
        PrimV::Simple(SymV::NT(name)) => match spec_get_prod(prods, name) {
            Some(pr) => pr.rhs,
            None => Seq::empty(),
        },
        PrimV::Simple(s) => seq![p],
        PrimV::Split(bs) => seq![PrimV::Split(spec_rewrite_strs(bs, prods))],
        PrimV::Repeat(n, c) => seq![PrimV::Repeat(n, spec_rewrite_prims(c, prods))],
    }
}

/// One simultaneous derivation step over a whole primitive sequence.
pub open spec fn spec_rewrite_prims(ps: Seq<PrimV>, prods: Seq<ProdV>) -> Seq<PrimV>
    decreases ps,
{
    if ps.len() == 0 {
        Seq::empty()
    } else {
        spec_rewrite_prims(ps.drop_last(), prods) + spec_rewrite_one(ps.last(), prods)
    }
}

pub open spec fn spec_rewrite_strs(bs: Seq<Seq<PrimV>>, prods: Seq<ProdV>) -> Seq<Seq<PrimV>>
    decreases bs,
{
    if bs.len() == 0 {
        Seq::empty()
    } else {
        spec_rewrite_strs(bs.drop_last(), prods).push(spec_rewrite_prims(bs.last(), prods))
    }
}

/// Applying one rewrite step `n` times.
pub open spec fn spec_rewrite_n(ps: Seq<PrimV>, prods: Seq<ProdV>, n: nat) -> Seq<PrimV>
    decreases n,
{
    if n == 0 {
        ps
    } else {
        spec_rewrite_prims(spec_rewrite_n(ps, prods, (n - 1) as nat), prods)
    }
}

/// Whether a primitive holds no nonterminal at any nesting depth.
pub open spec fn prim_terminal(p: PrimV) -> bool
    decreases p,
{
    match p {
        PrimV::Simple(SymV::NT(_)) => false,
        PrimV::Simple(_) => true,
        PrimV::Split(bs) => strs_terminal(bs),
        PrimV::Repeat(n, c) => prims_terminal(c),
    }
}

/// Whether a string holds no nonterminal at any nesting depth.
pub open spec fn prims_terminal(ps: Seq<PrimV>) -> bool
    decreases ps,
{
    ps.len() == 0 || (prim_terminal(ps.last()) && prims_terminal(ps.drop_last()))
}

pub open spec fn strs_terminal(bs: Seq<Seq<PrimV>>) -> bool
    decreases bs,
{
    bs.len() == 0 || (prims_terminal(bs.last()) && strs_terminal(bs.drop_last()))
}

/// A string is fully terminal exactly when each of its primitives is.
pub proof fn lemma_prims_terminal_index(ps: Seq<PrimV>)
    ensures
        prims_terminal(ps) <==> (forall|i: int|
            0 <= i < ps.len() ==> prim_terminal(#[trigger] ps[i])),
    decreases ps.len(),
{
    if ps.len() > 0 {
        lemma_prims_terminal_index(ps.drop_last());
        if prims_terminal(ps) {
            assert forall|i: int| 0 <= i < ps.len() implies prim_terminal(#[trigger] ps[i]) by {
                if i < ps.len() - 1 {
                    assert(ps.drop_last()[i] == ps[i]);
                } else {
                    assert(ps[i] == ps.last());
                }
            }
        }
        if forall|i: int| 0 <= i < ps.len() ==> prim_terminal(#[trigger] ps[i]) {
            assert forall|i: int|
                0 <= i < ps.drop_last().len() implies prim_terminal(
                #[trigger] ps.drop_last()[i],
            ) by {
                assert(ps.drop_last()[i] == ps[i]);
            }
            assert(prim_terminal(ps[ps.len() - 1]));
            assert(prims_terminal(ps));
        }
    }
}

/// A branch list is fully terminal exactly when each branch is.
pub proof fn lemma_strs_terminal_index(bs: Seq<Seq<PrimV>>)
    ensures
        strs_terminal(bs) <==> (forall|m: int|
            0 <= m < bs.len() ==> prims_terminal(#[trigger] bs[m])),
    decreases bs.len(),
{
    if bs.len() > 0 {
        lemma_strs_terminal_index(bs.drop_last());
        if strs_terminal(bs) {
            assert forall|m: int| 0 <= m < bs.len() implies prims_terminal(#[trigger] bs[m]) by {
                if m < bs.len() - 1 {
                    assert(bs.drop_last()[m] == bs[m]);
                } else {
                    assert(bs[m] == bs.last());
                }
            }
        }
        if forall|m: int| 0 <= m < bs.len() ==> prims_terminal(#[trigger] bs[m]) {
            assert forall|m: int|
                0 <= m < bs.drop_last().len() implies prims_terminal(
                #[trigger] bs.drop_last()[m],
            ) by {
                assert(bs.drop_last()[m] == bs[m]);
            }
            assert(prims_terminal(bs[bs.len() - 1]));
            assert(strs_terminal(bs));
        }
    }
}


/// A fresh symbol with the same value.
fn copy_symbol(s: &Symbol) -> (r: Symbol)
    ensures
        sym_view(r) == sym_view(*s),
{
    match s {
        Symbol::NT(NonTerminal::Custom(name)) => Symbol::NT(NonTerminal::Custom(name.clone())),
        Symbol::T(Terminal::Music { duration, note }) => Symbol::T(
            Terminal::Music { duration: *duration, note: *note },
        ),
        Symbol::T(Terminal::Meta(m)) => Symbol::T(Terminal::Meta(*m)),
    }
}

/// A fresh primitive with the same value.
fn copy_prim(p: &MusicPrimitive) -> (r: MusicPrimitive)
    ensures
        prim_view(r) == prim_view(*p),
    decreases *p,
{
    match p {
        MusicPrimitive::Simple(s) => MusicPrimitive::Simple(copy_symbol(s)),
        MusicPrimitive::Split { branches } => {
            let mut nb: Vec<MusicString> = Vec::new();
            let mut k: usize = 0;
            while k < branches.len()
                invariant
                    k <= branches.len(),
                    *p == (MusicPrimitive::Split { branches: *branches }),
                    strs_view(nb@) == strs_view(branches@.subrange(0, k as int)),
                decreases branches.len() - k,
            {
                proof {
                    assert(decreases_to!(*p => p->Split_branches));
                    assert(*branches == p->Split_branches);
                    assert(decreases_to!(*branches => branches@));
                    assert(decreases_to!(branches@ => branches@[k as int]));
                    assert(decreases_to!(branches@[k as int] => branches@[k as int].0));
                    assert(decreases_to!(branches@[k as int].0 => branches@[k as int].0@));
                }
                let ms = MusicString(copy_prims(&branches[k].0));
                let ghost pre_nb = nb@;
                nb.push(ms);
                proof {
                    lemma_strs_view_push(pre_nb, ms);
                    let pre = branches@.subrange(0, k as int);
                    let now = branches@.subrange(0, k as int + 1);
                    assert(now.drop_last() =~= pre);
                    assert(now.last() == branches@[k as int]);
                }
                k += 1;
            }
            proof {
                assert(branches@.subrange(0, branches@.len() as int) =~= branches@);
            }
            MusicPrimitive::Split { branches: nb }
        },
        MusicPrimitive::Repeat { num, content } => MusicPrimitive::Repeat {
            num: *num,
            content: MusicString(copy_prims(&content.0)),
        },
    }
}

/// A fresh vector of primitives with the same values.
fn copy_prims(v: &Vec<MusicPrimitive>) -> (r: Vec<MusicPrimitive>)
    ensures
        prims_view(r@) == prims_view(v@),
    decreases v@,
{
    let mut out: Vec<MusicPrimitive> = Vec::new();
    let mut i: usize = 0;
    while i < v.len()
        invariant
            i <= v.len(),
            prims_view(out@) == prims_view(v@.subrange(0, i as int)),
        decreases v@.len() - i,
    {
        let p = copy_prim(&v[i]);
        proof {
            lemma_prims_view_push(out@, p);
            let pre = v@.subrange(0, i as int);
            let now = v@.subrange(0, i as int + 1);
            assert(now.drop_last() =~= pre);
            assert(now.last() == v@[i as int]);
        }
        out.push(p);
        i += 1;
    }
    proof {
        assert(v@.subrange(0, v@.len() as int) =~= v@);
    }
    out
}

} // verus!


verus! {

impl MusicString {
    /// One simultaneous derivation step: every nonterminal occurrence is
    /// replaced by a production's replacement in the same pass (dropped when
    /// none exists), terminals are copied unchanged, and split branches and
    /// repeat content are rewritten recursively in place. With
    /// `random == false` the first matching production is always taken, so
    /// the result is exactly `spec_rewrite_prims`; with `random == true` the
    /// production is drawn at random among those that match. Under either
    /// policy a fully terminal string rewrites to itself: there is nothing
    /// to replace.
    pub fn parallel_rewrite(&self, grammar: &Grammar, random: bool) -> (r: MusicString)
        ensures
            !random ==> r@ == spec_rewrite_prims(self@, grammar@),
            prims_terminal(self@) ==> r@ == self@,
        decreases *self,
    {
        let ghost prods = grammar@;
        let mut out: Vec<MusicPrimitive> = Vec::new();
        let mut i: usize = 0;
        while i < self.0.len()
            invariant
                i <= self.0.len(),
                !random ==> prims_view(out@) == spec_rewrite_prims(
                    prims_view(self.0@.subrange(0, i as int)),
                    prods,
                ),
                prims_terminal(prims_view(self.0@.subrange(0, i as int))) ==> prims_view(out@)
                    == prims_view(self.0@.subrange(0, i as int)),
                prods == grammar@,
            decreases self.0@.len() - i,
        {
            proof {
                lemma_prims_view_index(self.0@);
                lemma_prims_view_index(self.0@.subrange(0, i as int));
                lemma_prims_view_index(self.0@.subrange(0, i as int + 1));
                let pre = prims_view(self.0@.subrange(0, i as int));
                let now = prims_view(self.0@.subrange(0, i as int + 1));
                assert(self.0@.subrange(0, i as int + 1).drop_last() =~= self.0@.subrange(
                    0,
                    i as int,
                ));
                assert(now.drop_last() =~= pre);
                assert(now.last() == prim_view(self.0@[i as int]));
                assert(spec_rewrite_prims(now, prods) == spec_rewrite_prims(pre, prods)
                    + spec_rewrite_one(prim_view(self.0@[i as int]), prods));
                lemma_prims_terminal_index(pre);
                lemma_prims_terminal_index(now);
            }
            let ghost pre_sub = prims_view(self.0@.subrange(0, i as int));
            let ghost now_sub = prims_view(self.0@.subrange(0, i as int + 1));
            let ghost pre_out = out@;
            let ghost one_target = spec_rewrite_one(prim_view(self.0@[i as int]), prods);
            match &self.0[i] {
                MusicPrimitive::Simple(Symbol::NT(nt)) => {
                    let picked = if random {
                        grammar.get_production_random(nt)
                    } else {
                        grammar.get_production(nt)
                    };
                    proof {
                        if !random {
                            lemma_get_production_view(grammar.productions@, nt_name(*nt));
                        }
                        // A nonterminal stands at `i`, so no prefix through it
                        // is fully terminal and the identity clause is idle.
                        assert(!prim_terminal(now_sub.last()));
                        assert(!prims_terminal(now_sub));
                    }
                    match picked {
                        Some(p) => {
                            let mut copies = copy_prims(&p.1.0);
                            proof {
                                lemma_prims_view_concat(pre_out, copies@);
                                if !random {
                                    assert(prims_view(copies@) == one_target);
                                }
                            }
                            out.append(&mut copies);
                        },
                        None => {
                            proof {
                                if !random {
                                    assert(one_target =~= Seq::<PrimV>::empty());
                                    assert(prims_view(out@) =~= prims_view(out@) + one_target);
                                }
                            }
                        },
                    }
                },
                MusicPrimitive::Simple(sym) => {
                    let cp = MusicPrimitive::Simple(copy_symbol(sym));
                    proof {
                        lemma_prims_view_push(pre_out, cp);
                        if !random {
                            assert(seq![prim_view(cp)] =~= one_target);
                        }
                        assert(prim_view(cp) == now_sub.last());
                    }
                    out.push(cp);
                    proof {
                        if prims_terminal(now_sub) {
                            assert(prims_terminal(pre_sub));
                            assert(prims_view(out@) =~= now_sub);
                        }
                    }
                },
                MusicPrimitive::Split { branches } => {
                    let mut nb: Vec<MusicString> = Vec::new();
                    let mut k: usize = 0;
                    while k < branches.len()
                        invariant
                            k <= branches.len(),
                            prods == grammar@,
                            i < self.0.len(),
                            self.0@[i as int] == (MusicPrimitive::Split { branches: *branches }),
                            decreases_to!(*self => *branches),
                            !random ==> strs_view(nb@) == spec_rewrite_strs(
                                strs_view(branches@.subrange(0, k as int)),
                                prods,
                            ),
                            nb@.len() == k,
                            forall|m: int|
                                0 <= m < k ==> (prims_terminal(
                                    #[trigger] strs_view(branches@)[m],
                                ) ==> strs_view(nb@)[m] == strs_view(branches@)[m]),
                        decreases branches@.len() - k,
                    {
                        proof {
                            assert(decreases_to!(*branches => branches@));
                            assert(decreases_to!(branches@ => branches@[k as int]));
                        }
                        let nk = branches[k].parallel_rewrite(grammar, random);
                        let ghost pre_nb = nb@;
                        nb.push(nk);
                        proof {
                            lemma_strs_view_push(pre_nb, nk);
                            lemma_strs_view_index(branches@);
                            lemma_strs_view_index(branches@.subrange(0, k as int));
                            lemma_strs_view_index(branches@.subrange(0, k as int + 1));
                            lemma_strs_view_index(nb@);
                            assert(branches@.subrange(0, k as int + 1).drop_last()
                                =~= branches@.subrange(0, k as int));
                            assert(branches@.subrange(0, k as int + 1).last() == branches@[
                                k as int
                            ]);
                            let bs1 = strs_view(branches@.subrange(0, k as int + 1));
                            assert(bs1.drop_last() =~= strs_view(branches@.subrange(0, k as int)));
                            assert(bs1.last() == prims_view(branches@[k as int].0@));
                            assert(bs1 == strs_view(branches@.subrange(0, k as int)).push(
                                prims_view(branches@[k as int].0@),
                            ));
                        }
                        k += 1;
                    }
                    proof {
                        assert(branches@.subrange(0, branches@.len() as int) =~= branches@);
                    }
                    let cp = MusicPrimitive::Split { branches: nb };
                    proof {
                        lemma_prims_view_push(pre_out, cp);
                        if !random {
                            assert(prim_view(cp) == PrimV::Split(
                                spec_rewrite_strs(strs_view(branches@), prods),
                            ));
                            assert(seq![prim_view(cp)] =~= one_target);
                        }
                        if prims_terminal(now_sub) {
                            assert(prim_terminal(now_sub.last()));
                            lemma_strs_terminal_index(strs_view(branches@));
                            lemma_strs_view_index(branches@);
                            lemma_strs_view_index(nb@);
                            assert(strs_view(nb@) =~= strs_view(branches@));
                            assert(prim_view(cp) == now_sub.last());
                        }
                    }
                    out.push(cp);
                    proof {
                        if prims_terminal(now_sub) {
                            assert(prims_terminal(pre_sub));
                            assert(prims_view(out@) =~= now_sub);
                        }
                    }
                },
                MusicPrimitive::Repeat { num, content } => {
                    proof {
                        let sp = self.0@[i as int];
                        assert(decreases_to!(*self => self.0));
                        assert(decreases_to!(self.0 => self.0@));
                        assert(decreases_to!(self.0@ => sp));
                        assert(decreases_to!(sp => sp->Repeat_content));
                        assert(*content == sp->Repeat_content);
                    }
                    let nc = content.parallel_rewrite(grammar, random);
                    let cp = MusicPrimitive::Repeat { num: *num, content: nc };
                    proof {
                        lemma_prims_view_push(pre_out, cp);
                        if !random {
                            assert(seq![prim_view(cp)] =~= one_target);
                        }
                        if prims_terminal(now_sub) {
                            assert(prim_terminal(now_sub.last()));
                            assert(prims_terminal(prims_view(content.0@)));
                            assert(prim_view(cp) == now_sub.last());
                        }
                    }
                    out.push(cp);
                    proof {
                        if prims_terminal(now_sub) {
                            assert(prims_terminal(pre_sub));
                            assert(prims_view(out@) =~= now_sub);
                        }
                    }
                },
            }
            i += 1;
        }
        proof {
            assert(self.0@.subrange(0, self.0@.len() as int) =~= self.0@);
        }
        MusicString(out)
    }

    /// Exactly `n` simultaneous derivation steps, with no fixpoint or cycle
    /// detection; termination of the derivation itself is the caller's
    /// concern, this function always returns after `n` passes. A fully
    /// terminal string comes back unchanged under either choice policy.
    pub fn parallel_rewrite_n(&self, grammar: &Grammar, random: bool, n: usize) -> (r: MusicString)
        ensures
            !random ==> r@ == spec_rewrite_n(self@, grammar@, n as nat),
            prims_terminal(self@) ==> r@ == self@,
    {
        let mut cur = MusicString(copy_prims(&self.0));
        let mut i: usize = 0;
        while i < n
            invariant
                i <= n,
                !random ==> cur@ == spec_rewrite_n(self@, grammar@, i as nat),
                prims_terminal(self@) ==> cur@ == self@,
            decreases n - i,
        {
            cur = cur.parallel_rewrite(grammar, random);
            i += 1;
        }
        cur
    }
}

} // verus!

use std::str::FromStr;

verus! {

impl Grammar {
    /// Parse a whole grammar text: a `start` line and one production per
    /// nonempty line.
    pub fn parse(s: &str) -> (r: Result<Grammar, crate::cfg::scan::ScanError>)
        ensures
            match crate::cfg::scan::spec_scan_grammar(s.spec_bytes()) {
                Some(pair) => r is Ok && r->Ok_0.deep_view() == pair.0,
                None => r is Err,
            },
    {
        let bytes = s.as_bytes();
        match crate::cfg::scan::Scanner::scan(&crate::cfg::scan::GrammarScanner, bytes) {
            Ok((g, _rest)) => Ok(g),
            Err(e) => Err(e),
        }
    }
}

impl MusicString {
    /// Parse a music string; the whole input must be consumed.
    pub fn parse(s: &str) -> (r: Result<MusicString, crate::cfg::scan::ScanError>)
        ensures
            match crate::cfg::scan::spec_scan_music_string(s.spec_bytes()) {
                Some(pair) => if pair.1.len() == 0 {
                    r is Ok && r->Ok_0.deep_view() == pair.0
                } else {
                    r is Err
                },
                None => r is Err,
            },
    {
        let bytes = s.as_bytes();
        let sc = crate::cfg::scan::ConsumeScanner(crate::cfg::scan::MusicStringScanner);
        match crate::cfg::scan::Scanner::scan(&sc, bytes) {
            Ok((ms, _rest)) => Ok(ms),
            Err(e) => Err(e),
        }
    }
}

impl FromStr for Grammar {
    type Err = crate::cfg::scan::ScanError;

    fn from_str(s: &str) -> Result<Self, Self::Err> {
        Grammar::parse(s)
    }
}

impl FromStr for MusicString {
    type Err = crate::cfg::scan::ScanError;

    fn from_str(s: &str) -> Result<Self, Self::Err> {
        MusicString::parse(s)
    }
}

} // verus!

use crate::composition::{
    ev_eqv, evs, spec_comp_duration, spec_comp_end, spec_comp_ends_ok, spec_comp_start,
    spec_event_end, spec_event_end_ok, spec_shift_events, spec_shift_ok, spec_sort_events,
    tracks_view, Composition, Event, EventV, Pitch, Track, TrackId, TrackV,
};
use crate::time::{
    frac_in_range, frac_norm, mt_eq, mt_total, spec_mt_add, spec_mt_add_fits, spec_mt_sub,
    spec_mt_sub_fits, spec_mt_sub_ok, FracV, TimeSignature,
};

verus! {

/// Why a music string would not compile to a composition.
#[derive(Debug)]
pub enum ComposeError {
    /// Parallel branches of a split compiled to different durations.
    MismatchedLengths(String),
    /// An exact time or duration left the machine representation.
    OutOfRange,
}

/// Ghost mirror of `ComposeError`, without the diagnostic text.
pub ghost enum ComposeErrV {
    Mismatched,
    OutOfRange,
}

/// The interpreter state a compose run threads left to right.
pub ghost struct ComposeStateV {
    pub tracks: Seq<TrackV>,
    pub cursor: MtV,
    pub instrument: Instrument,
    pub volume: Volume,
}

pub open spec fn mtv_zero() -> MtV {
    MtV { m: 0, b: FracV { n: 0, d: 1 } }
}

/// The first track of the instrument, or -1.
pub open spec fn spec_find_track(tracks: Seq<TrackV>, instr: Instrument) -> int
    decreases tracks.len(),
{
    if tracks.len() == 0 {
        -1
    } else if tracks[0].instrument == instr {
        0
    } else {
        let r = spec_find_track(tracks.drop_first(), instr);
        if r < 0 {
            -1
        } else {
            r + 1
        }
    }
}

/// Append one event (or rest) to the instrument's track, creating the
/// track at the end when the instrument has none yet.
pub open spec fn spec_add_event(
    tracks: Seq<TrackV>,
    instr: Instrument,
    e: EventV,
    is_rest: bool,
) -> Seq<TrackV> {
    let i = spec_find_track(tracks, instr);
    if i >= 0 {
        let t = tracks[i];
        tracks.update(
            i,
            TrackV {
                identifier: t.identifier,
                instrument: t.instrument,
                events: if is_rest {
                    t.events
                } else {
                    t.events.push(e)
                },
                rests: if is_rest {
                    t.rests.push(e)
                } else {
                    t.rests
                },
            },
        )
    } else {
        tracks.push(
            TrackV {
                identifier: TrackId::Instrument(instr),
                instrument: instr,
                events: if is_rest {
                    Seq::empty()
                } else {
                    seq![e]
                },
                rests: if is_rest {
                    seq![e]
                } else {
                    Seq::empty()
                },
            },
        )
    }
}

/// Merge one track into the accumulator: pooled and re-sorted with the
/// existing track of its instrument, or appended.
pub open spec fn spec_merge_into(tracks: Seq<TrackV>, t: TrackV) -> Seq<TrackV> {
    let i = spec_find_track(tracks, t.instrument);
    if i >= 0 {
        let m = tracks[i];
        tracks.update(
            i,
            TrackV {
                identifier: m.identifier,
                instrument: m.instrument,
                events: spec_sort_events(m.events + t.events),
                rests: spec_sort_events(m.rests + t.rests),
            },
        )
    } else {
        tracks.push(t)
    }
}

/// Merge a whole track list into the accumulator, in order.
pub open spec fn spec_merge_comp(tracks: Seq<TrackV>, comp: Seq<TrackV>) -> Seq<TrackV>
    decreases comp.len(),
{
    if comp.len() == 0 {
        tracks
    } else {
        spec_merge_comp(spec_merge_into(tracks, comp[0]), comp.drop_first())
    }
}

/// A track list with every start moved later by `off`.
pub open spec fn spec_shift_comp(tracks: Seq<TrackV>, off: MtV, ts: int) -> Seq<TrackV> {
    tracks.map_values(
        |t: TrackV|
            TrackV {
                identifier: t.identifier,
                instrument: t.instrument,
                events: spec_shift_events(t.events, off, ts),
                rests: spec_shift_events(t.rests, off, ts),
            },
    )
}

pub open spec fn spec_shift_comp_ok(tracks: Seq<TrackV>, off: MtV, ts: int) -> bool {
    forall|i: int|
        0 <= i < tracks.len() ==> spec_shift_ok(#[trigger] tracks[i].events, off, ts)
            && spec_shift_ok(tracks[i].rests, off, ts)
}

/// One simultaneous compose step over a primitive list.
pub open spec fn spec_compose(prims: Seq<PrimV>, ts: int, st: ComposeStateV) -> Result<
    ComposeStateV,
    ComposeErrV,
>
    decreases prims, 1int,
{
    if prims.len() == 0 {
        Ok(st)
    } else {
        match spec_compose_one(prims[0], ts, st) {
            Err(e) => Err(e),
            Ok((st1, dur)) => {
                if !spec_mt_add_fits(st1.cursor, dur, ts) {
                    Err(ComposeErrV::OutOfRange)
                } else {
                    spec_compose(
                        prims.drop_first(),
                        ts,
                        ComposeStateV {
                            tracks: st1.tracks,
                            cursor: spec_mt_add(st1.cursor, dur, ts),
                            instrument: st1.instrument,
                            volume: st1.volume,
                        },
                    )
                }
            },
        }
    }
}

/// What one primitive contributes: the new state (cursor untouched) and
/// the duration the cursor then advances by.
pub open spec fn spec_compose_one(p: PrimV, ts: int, st: ComposeStateV) -> Result<
    (ComposeStateV, MtV),
    ComposeErrV,
>
    decreases p, 2int,
{
    match p {
        PrimV::Simple(SymV::NT(_)) => Ok((st, mtv_zero())),
        PrimV::Simple(SymV::T(TermV::Meta(MetaControl::ChangeInstrument(i)))) => Ok(
            (
                ComposeStateV {
                    tracks: st.tracks,
                    cursor: st.cursor,
                    instrument: i,
                    volume: st.volume,
                },
                mtv_zero(),
            ),
        ),
        PrimV::Simple(SymV::T(TermV::Meta(MetaControl::ChangeVolume(v)))) => Ok(
            (
                ComposeStateV {
                    tracks: st.tracks,
                    cursor: st.cursor,
                    instrument: st.instrument,
                    volume: v,
                },
                mtv_zero(),
            ),
        ),
        PrimV::Simple(SymV::T(TermV::Music { duration, note })) => {
            let db = frac_norm(mt_total(duration, ts));
            if !frac_in_range(db) {
                Err(ComposeErrV::OutOfRange)
            } else {
                let e = match note {
                    TerminalNote::Note { pitch } => EventV {
                        start: st.cursor,
                        duration: db,
                        volume: st.volume,
                        pitch,
                    },
                    TerminalNote::Rest => EventV {
                        start: st.cursor,
                        duration: db,
                        volume: Volume(0),
                        pitch: Pitch(0, 0),
                    },
                };
                Ok(
                    (
                        ComposeStateV {
                            tracks: spec_add_event(st.tracks, st.instrument, e, note is Rest),
                            cursor: st.cursor,
                            instrument: st.instrument,
                            volume: st.volume,
                        },
                        duration,
                    ),
                )
            }
        },
        PrimV::Split(bs) => {
            match spec_compose_branches(bs, ts, st.instrument, st.volume) {
                Err(e) => Err(e),
                Ok(raw) => {
                    match spec_branches_shift(raw, st.cursor, ts) {
                        Err(e) => Err(e),
                        Ok(list) => {
                            if list.len() == 0 {
                                Ok((st, mtv_zero()))
                            } else if exists|k: int|
                                0 <= k < list.len() && !mt_eq(
                                    (#[trigger] list[k]).1,
                                    list[0].1,
                                ) {
                                Err(ComposeErrV::Mismatched)
                            } else {
                                Ok(
                                    (
                                        ComposeStateV {
                                            tracks: spec_merge_all(st.tracks, list),
                                            cursor: st.cursor,
                                            instrument: st.instrument,
                                            volume: st.volume,
                                        },
                                        list[0].1,
                                    ),
                                )
                            }
                        },
                    }
                }
            }
        },
        PrimV::Repeat(n, c) => {
            match spec_compose(
                c,
                ts,
                ComposeStateV {
                    tracks: Seq::empty(),
                    cursor: mtv_zero(),
                    instrument: st.instrument,
                    volume: st.volume,
                },
            ) {
                Err(e) => Err(e),
                Ok(stc) => {
                    match spec_comp_duration(stc.tracks, ts) {
                        None => Err(ComposeErrV::OutOfRange),
                        Some(dur) => {
                            match spec_replicas(st.tracks, stc.tracks, dur, n, st.cursor, ts) {
                                Err(e) => Err(e),
                                Ok(tracks2) => {
                                    match spec_total_dur(dur, n, ts) {
                                        Err(e) => Err(e),
                                        Ok(total) => Ok(
                                            (
                                                ComposeStateV {
                                                    tracks: tracks2,
                                                    cursor: st.cursor,
                                                    instrument: st.instrument,
                                                    volume: st.volume,
                                                },
                                                total,
                                            ),
                                        ),
                                    }
                                },
                            }
                        },
                    }
                },
            }
        },
    }
}

/// Each split branch composed from a fresh state with the inherited
/// instrument and volume; the branch track lists, unshifted.
pub open spec fn spec_compose_branches(
    bs: Seq<Seq<PrimV>>,
    ts: int,
    instrument: Instrument,
    volume: Volume,
) -> Result<Seq<Seq<TrackV>>, ComposeErrV>
    decreases bs, 0int,
{
    if bs.len() == 0 {
        Ok(Seq::empty())
    } else {
        match spec_compose(
            bs[0],
            ts,
            ComposeStateV { tracks: Seq::empty(), cursor: mtv_zero(), instrument, volume },
        ) {
            Err(e) => Err(e),
            Ok(st) => match spec_compose_branches(bs.drop_first(), ts, instrument, volume) {
                Err(e) => Err(e),
                Ok(rest) => Ok(seq![st.tracks] + rest),
            },
        }
    }
}

/// Shift each branch to the cursor and compute its duration.
pub open spec fn spec_branches_shift(raw: Seq<Seq<TrackV>>, cursor: MtV, ts: int) -> Result<
    Seq<(Seq<TrackV>, MtV)>,
    ComposeErrV,
>
    decreases raw.len(),
{
    if raw.len() == 0 {
        Ok(Seq::empty())
    } else {
        if !spec_shift_comp_ok(raw[0], cursor, ts) {
            Err(ComposeErrV::OutOfRange)
        } else {
            let shifted = spec_shift_comp(raw[0], cursor, ts);
            match spec_comp_duration(shifted, ts) {
                None => Err(ComposeErrV::OutOfRange),
                Some(d) => match spec_branches_shift(raw.drop_first(), cursor, ts) {
                    Err(e) => Err(e),
                    Ok(rest) => Ok(seq![(shifted, d)] + rest),
                },
            }
        }
    }
}

/// Merge the branch track lists into the accumulator, in order.
pub open spec fn spec_merge_all(tracks: Seq<TrackV>, list: Seq<(Seq<TrackV>, MtV)>) -> Seq<TrackV>
    decreases list.len(),
{
    if list.len() == 0 {
        tracks
    } else {
        spec_merge_all(spec_merge_comp(tracks, list[0].0), list.drop_first())
    }
}

/// The `n` shifted copies of the content, merged in at increasing offsets.
pub open spec fn spec_replicas(
    tracks: Seq<TrackV>,
    content: Seq<TrackV>,
    dur: MtV,
    n: int,
    offset: MtV,
    ts: int,
) -> Result<Seq<TrackV>, ComposeErrV>
    decreases n,
{
    if n <= 0 {
        Ok(tracks)
    } else if !spec_shift_comp_ok(content, offset, ts) {
        Err(ComposeErrV::OutOfRange)
    } else {
        let shifted = spec_shift_comp(content, offset, ts);
        let tracks2 = spec_merge_comp(tracks, shifted);
        if !spec_mt_add_fits(offset, dur, ts) {
            Err(ComposeErrV::OutOfRange)
        } else {
            spec_replicas(tracks2, content, dur, n - 1, spec_mt_add(offset, dur, ts), ts)
        }
    }
}

/// The total duration of `n` repetitions, summed one at a time.
pub open spec fn spec_total_dur(dur: MtV, n: int, ts: int) -> Result<MtV, ComposeErrV>
    decreases n,
{
    if n <= 0 {
        Ok(mtv_zero())
    } else {
        match spec_total_dur(dur, n - 1, ts) {
            Err(e) => Err(e),
            Ok(t) => {
                if !spec_mt_add_fits(t, dur, ts) {
                    Err(ComposeErrV::OutOfRange)
                } else {
                    Ok(spec_mt_add(t, dur, ts))
                }
            },
        }
    }
}

} // verus!

verus! {

/// The first track of the instrument in the vector, if any.
#[verifier::loop_isolation(false)]
fn find_track_ex(tracks: &Vec<Track>, instr: Instrument) -> (r: Option<usize>)
    ensures
        match r {
            Some(i) => spec_find_track(tracks_view(tracks@), instr) == i as int && i
                < tracks@.len() && tracks@[i as int].instrument == instr,
            None => spec_find_track(tracks_view(tracks@), instr) == -1,
        },
{
    let ghost tv = tracks_view(tracks@);
    proof {
        assert(tv.skip(0) =~= tv);
    }
    let mut i: usize = 0;
    while i < tracks.len()
        invariant
            i <= tracks@.len(),
            forall|k: int| 0 <= k < i ==> tracks_view(tracks@)[k].instrument != instr,
            spec_find_track(tv, instr) == (if spec_find_track(tv.skip(i as int), instr) < 0 {
                -1
            } else {
                spec_find_track(tv.skip(i as int), instr) + i
            }),
        decreases tracks@.len() - i,
    {
        proof {
            let suf = tv.skip(i as int);
            assert(suf[0] == tv[i as int]);
            assert(suf.drop_first() =~= tv.skip(i as int + 1));
        }
        if tracks[i].instrument == instr {
            return Some(i);
        }
        i += 1;
    }
    proof {
        assert(tv.skip(tracks@.len() as int) =~= Seq::<TrackV>::empty());
    }
    None
}

/// Append one event or rest to the instrument's track, creating it when
/// missing.
#[verifier::loop_isolation(false)]
fn add_event_ex(tracks: &mut Vec<Track>, instr: Instrument, e: Event, is_rest: bool)
    ensures
        tracks_view(final(tracks)@) == spec_add_event(
            tracks_view(old(tracks)@),
            instr,
            e@,
            is_rest,
        ),
{
    let ghost tv0 = tracks_view(tracks@);
    match find_track_ex(tracks, instr) {
        Some(i) => {
            let mut t = tracks.remove(i);
            let ghost told = t@;
            if is_rest {
                t.rests.push(e);
            } else {
                t.events.push(e);
            }
            proof {
                if is_rest {
                    assert(evs(t.rests@) =~= told.rests.push(e@));
                } else {
                    assert(evs(t.events@) =~= told.events.push(e@));
                }
            }
            tracks.insert(i, t);
            proof {
                assert(tracks_view(tracks@) =~= spec_add_event(tv0, instr, e@, is_rest));
            }
        },
        None => {
            let mut events: Vec<Event> = Vec::new();
            let mut rests: Vec<Event> = Vec::new();
            if is_rest {
                rests.push(e);
            } else {
                events.push(e);
            }
            let t = Track {
                identifier: TrackId::Instrument(instr),
                instrument: instr,
                events,
                rests,
            };
            proof {
                if is_rest {
                    assert(evs(t.rests@) =~= seq![e@]);
                    assert(evs(t.events@) =~= Seq::<EventV>::empty());
                } else {
                    assert(evs(t.events@) =~= seq![e@]);
                    assert(evs(t.rests@) =~= Seq::<EventV>::empty());
                }
            }
            tracks.push(t);
            proof {
                assert(tracks_view(tracks@) =~= spec_add_event(tv0, instr, e@, is_rest));
            }
        },
    }
}

/// Merge one track into the accumulator by instrument.
fn merge_into_ex(tracks: &mut Vec<Track>, t: Track)
    ensures
        tracks_view(final(tracks)@) == spec_merge_into(tracks_view(old(tracks)@), t@),
{
    let ghost tv0 = tracks_view(tracks@);
    let ghost tvt = t@;
    match find_track_ex(tracks, t.instrument) {
        Some(i) => {
            let m = tracks.remove(i);
            let merged = m.merge(t);
            tracks.insert(i, merged);
            proof {
                assert(tracks_view(tracks@) =~= spec_merge_into(tv0, tvt));
            }
        },
        None => {
            tracks.push(t);
            proof {
                assert(tracks_view(tracks@) =~= spec_merge_into(tv0, tvt));
            }
        },
    }
}

/// Merge a whole track list into the accumulator, in order.
#[verifier::loop_isolation(false)]
fn merge_comp_ex(tracks: &mut Vec<Track>, comp: Vec<Track>)
    ensures
        tracks_view(final(tracks)@) == spec_merge_comp(
            tracks_view(old(tracks)@),
            tracks_view(comp@),
        ),
{
    let ghost cv = tracks_view(comp@);
    let mut rest = comp;
    while rest.len() > 0
        invariant
            spec_merge_comp(tracks_view(old(tracks)@), cv) == spec_merge_comp(
                tracks_view(tracks@),
                tracks_view(rest@),
            ),
        decreases rest@.len(),
    {
        proof {
            let rv = tracks_view(rest@);
            assert(rv[0] == rest@[0]@);
            assert(rv.drop_first() =~= tracks_view(rest@.drop_first()));
        }
        let t = rest.remove(0);
        merge_into_ex(tracks, t);
    }
    proof {
        assert(tracks_view(rest@) =~= Seq::<TrackV>::empty());
    }
}

/// Shift every track of a list later by `offset`; `None` when a shifted
/// start does not fit.
#[verifier::loop_isolation(false)]
fn shift_tracks_ex(tracks: &Vec<Track>, offset: MusicTime, time_signature: TimeSignature) -> (r:
    Option<Vec<Track>>)
    requires
        time_signature.0 >= 1,
    ensures
        match r {
            Some(out) => spec_shift_comp_ok(tracks_view(tracks@), offset@, time_signature.0 as int)
                && tracks_view(out@) == spec_shift_comp(
                tracks_view(tracks@),
                offset@,
                time_signature.0 as int,
            ),
            None => !spec_shift_comp_ok(tracks_view(tracks@), offset@, time_signature.0 as int),
        },
{
    let ghost tsi = time_signature.0 as int;
    let ghost tv = tracks_view(tracks@);
    let mut out: Vec<Track> = Vec::new();
    let mut i: usize = 0;
    while i < tracks.len()
        invariant
            i <= tracks@.len(),
            out@.len() == i,
            forall|k: int|
                0 <= k < i ==> spec_shift_ok(#[trigger] tv[k].events, offset@, tsi)
                    && spec_shift_ok(tv[k].rests, offset@, tsi),
            tracks_view(out@) =~= spec_shift_comp(tv, offset@, tsi).subrange(0, i as int),
        decreases tracks@.len() - i,
    {
        match tracks[i].shifted(offset, time_signature) {
            None => {
                proof {
                    assert(tv[i as int] == tracks@[i as int]@);
                }
                return None;
            },
            Some(t) => {
                out.push(t);
                proof {
                    assert(tracks_view(out@) =~= spec_shift_comp(tv, offset@, tsi).subrange(
                        0,
                        i as int + 1,
                    ));
                }
            },
        }
        i += 1;
    }
    proof {
        assert(spec_shift_comp(tv, offset@, tsi).subrange(0, tracks@.len() as int)
            =~= spec_shift_comp(tv, offset@, tsi));
    }
    Some(out)
}

/// How long a track list lasts, through the composition it forms.
fn comp_duration_ex(tracks: Vec<Track>, time_signature: TimeSignature) -> (r: (
    Vec<Track>,
    Option<MusicTime>,
))
    requires
        time_signature.0 >= 1,
    ensures
        r.0 == tracks,
        crate::composition::opt_mt_view(r.1) == spec_comp_duration(
            tracks_view(tracks@),
            time_signature.0 as int,
        ),
{
    let comp = Composition { tracks, time_signature };
    let d = comp.get_duration();
    (comp.tracks, d)
}

/// The views of a vector of track vectors.
pub open spec fn raw_views(s: Seq<Vec<Track>>) -> Seq<Seq<TrackV>> {
    s.map_values(|v: Vec<Track>| tracks_view(v@))
}

/// The paired views of shifted branches and their durations.
pub open spec fn shift_list_views(sh: Seq<Vec<Track>>, durs: Seq<MusicTime>) -> Seq<
    (Seq<TrackV>, MtV),
> {
    Seq::new(sh.len(), |q: int| (tracks_view(sh[q]@), durs[q]@))
}

/// Map a ghost compose error to the exec result's shape.
pub open spec fn compose_res_matches(
    r: Result<(Vec<Track>, MusicTime), ComposeError>,
    s: Result<ComposeStateV, ComposeErrV>,
) -> bool {
    match (r, s) {
        (Ok((tracks, cursor)), Ok(st)) => tracks_view(tracks@) == st.tracks && cursor@
            == st.cursor,
        (Err(ComposeError::MismatchedLengths(_)), Err(ComposeErrV::Mismatched)) => true,
        (Err(ComposeError::OutOfRange), Err(ComposeErrV::OutOfRange)) => true,
        _ => false,
    }
}

/// What one primitive's compilation returned, held against what
/// `spec_compose_one` says it must: on success the same tracks and the
/// same cursor advance, on failure the same kind of error.
pub open spec fn compose_one_res_matches(
    r: Result<MusicTime, ComposeError>,
    tracks1: Seq<TrackV>,
    s: Result<(ComposeStateV, MtV), ComposeErrV>,
) -> bool {
    match (r, s) {
        (Ok(d), Ok((st1, dur))) => st1.tracks == tracks1 && d@ == dur,
        (Err(ComposeError::MismatchedLengths(_)), Err(ComposeErrV::Mismatched)) => true,
        (Err(ComposeError::OutOfRange), Err(ComposeErrV::OutOfRange)) => true,
        _ => false,
    }
}

/// Merging a whole list of track lists, one after the other.
pub open spec fn spec_merge_seqs(tracks: Seq<TrackV>, comps: Seq<Seq<TrackV>>) -> Seq<TrackV>
    decreases comps.len(),
{
    if comps.len() == 0 {
        tracks
    } else {
        spec_merge_seqs(spec_merge_comp(tracks, comps[0]), comps.drop_first())
    }
}

/// Merging the shifted branches depends only on their track lists, not on
/// the recorded durations.
pub proof fn lemma_merge_all_seqs(tracks: Seq<TrackV>, list: Seq<(Seq<TrackV>, MtV)>)
    ensures
        spec_merge_all(tracks, list) == spec_merge_seqs(
            tracks,
            list.map_values(|p: (Seq<TrackV>, MtV)| p.0),
        ),
    decreases list.len(),
{
    let comps = list.map_values(|p: (Seq<TrackV>, MtV)| p.0);
    if list.len() > 0 {
        lemma_merge_all_seqs(spec_merge_comp(tracks, list[0].0), list.drop_first());
        assert(list.drop_first().map_values(|p: (Seq<TrackV>, MtV)| p.0)
            =~= comps.drop_first());
        assert(comps[0] == list[0].0);
    }
}

/// Once the running total of a repeat leaves the representation, every
/// longer total does too.
pub proof fn lemma_total_dur_err(dur: MtV, k: int, n: int, ts: int)
    requires
        0 <= k <= n,
        spec_total_dur(dur, k, ts) == Err::<MtV, ComposeErrV>(ComposeErrV::OutOfRange),
    ensures
        spec_total_dur(dur, n, ts) == Err::<MtV, ComposeErrV>(ComposeErrV::OutOfRange),
    decreases n,
{
    if n > k {
        lemma_total_dur_err(dur, k, n - 1, ts);
    }
}

/// One primitive never moves the cursor itself, and changes instrument or
/// volume only when it is the corresponding meta control.
pub proof fn lemma_compose_one_frame(p: PrimV, ts: int, st: ComposeStateV)
    ensures
        spec_compose_one(p, ts, st) matches Ok(pr) ==> {
            &&& pr.0.cursor == st.cursor
            &&& (match p {
                PrimV::Simple(
                    SymV::T(TermV::Meta(MetaControl::ChangeInstrument(ni))),
                ) => pr.0.instrument == ni && pr.0.volume == st.volume,
                PrimV::Simple(SymV::T(TermV::Meta(MetaControl::ChangeVolume(nv)))) => pr.0.volume
                    == nv && pr.0.instrument == st.instrument,
                _ => pr.0.instrument == st.instrument && pr.0.volume == st.volume,
            })
        },
{
}

/// Compile a primitive list left to right from a fresh cursor, threading
/// instrument and volume; the exact mirror of `spec_compose`.
#[verifier::loop_isolation(false)]
#[verifier::rlimit(100)]
fn compose_prims(
    prims: &Vec<MusicPrimitive>,
    time_signature: TimeSignature,
    instr0: Instrument,
    vol0: Volume,
) -> (r: Result<(Vec<Track>, MusicTime), ComposeError>)
    requires
        time_signature.0 >= 1,
    ensures
        compose_res_matches(
            r,
            spec_compose(
                prims_view(prims@),
                time_signature.0 as int,
                ComposeStateV {
                    tracks: Seq::empty(),
                    cursor: mtv_zero(),
                    instrument: instr0,
                    volume: vol0,
                },
            ),
        ),
    decreases prims@, 2int,
{
    let ghost tsi = time_signature.0 as int;
    let ghost pv = prims_view(prims@);
    let ghost st0 = ComposeStateV {
        tracks: Seq::empty(),
        cursor: mtv_zero(),
        instrument: instr0,
        volume: vol0,
    };
    let mut tracks: Vec<Track> = Vec::new();
    let mut cursor = MusicTime::zero();
    let mut cur_instr = instr0;
    let mut cur_vol = vol0;
    proof {
        lemma_prims_view_index(prims@);
        assert(pv.skip(0) =~= pv);
        assert(tracks_view(tracks@) =~= Seq::<TrackV>::empty());
    }
    let mut i: usize = 0;
    while i < prims.len()
        invariant
            i <= prims@.len(),
            spec_compose(pv, tsi, st0) == spec_compose(
                pv.skip(i as int),
                tsi,
                ComposeStateV {
                    tracks: tracks_view(tracks@),
                    cursor: cursor@,
                    instrument: cur_instr,
                    volume: cur_vol,
                },
            ),
        decreases prims@.len() - i,
    {
        let ghost stc = ComposeStateV {
            tracks: tracks_view(tracks@),
            cursor: cursor@,
            instrument: cur_instr,
            volume: cur_vol,
        };
        proof {
            let suf = pv.skip(i as int);
            assert(suf[0] == pv[i as int]);
            assert(pv[i as int] == prim_view(prims@[i as int]));
            assert(suf.drop_first() =~= pv.skip(i as int + 1));
        }
        // What this primitive contributes, mirroring spec_compose_one.
        let dur: MusicTime = match &prims[i] {
            MusicPrimitive::Simple(Symbol::NT(nt0)) => {
                proof {
                    assert(pv[i as int] == PrimV::Simple(SymV::NT(nt_name(*nt0))));
                }
                MusicTime::zero()
            },
            MusicPrimitive::Simple(Symbol::T(Terminal::Meta(MetaControl::ChangeInstrument(ni))))
                => {
                proof {
                    assert(pv[i as int] == PrimV::Simple(
                        SymV::T(TermV::Meta(MetaControl::ChangeInstrument(*ni))),
                    ));
                }
                cur_instr = *ni;
                MusicTime::zero()
            },
            MusicPrimitive::Simple(Symbol::T(Terminal::Meta(MetaControl::ChangeVolume(nv)))) => {
                proof {
                    assert(pv[i as int] == PrimV::Simple(
                        SymV::T(TermV::Meta(MetaControl::ChangeVolume(*nv))),
                    ));
                }
                cur_vol = *nv;
                MusicTime::zero()
            },
            MusicPrimitive::Simple(Symbol::T(Terminal::Music { duration, note })) => {
                proof {
                    assert(pv[i as int] == PrimV::Simple(
                        SymV::T(TermV::Music { duration: duration@, note: *note }),
                    ));
                }
                let db = match duration.with(time_signature).total_beats() {
                    None => {
                        proof {
                            assert(pv[i as int] == PrimV::Simple(
                                SymV::T(TermV::Music { duration: duration@, note: *note }),
                            ));
                            assert(spec_compose_one(pv[i as int], tsi, stc) == Err::<
                                (ComposeStateV, MtV),
                                ComposeErrV,
                            >(ComposeErrV::OutOfRange));
                        }
                        return Err(ComposeError::OutOfRange);
                    },
                    Some(db) => db,
                };
                let e = match note {
                    TerminalNote::Note { pitch } => Event {
                        start: cursor,
                        duration: db,
                        volume: cur_vol,
                        pitch: *pitch,
                    },
                    TerminalNote::Rest => Event {
                        start: cursor,
                        duration: db,
                        volume: Volume(0),
                        pitch: Pitch(0, 0),
                    },
                };
                let is_rest = match note {
                    TerminalNote::Rest => true,
                    _ => false,
                };
                add_event_ex(&mut tracks, cur_instr, e, is_rest);
                *duration
            },
            MusicPrimitive::Split { branches } => {
                proof {
                    assert(decreases_to!(*prims => prims@));
                    assert(decreases_to!(prims@ => prims@[i as int]));
                    let sp = prims@[i as int];
                    assert(decreases_to!(sp => sp->Split_branches));
                    assert(*branches == sp->Split_branches);
                    assert(pv[i as int] == PrimV::Split(strs_view(branches@)));
                }
                match compose_split(
                    &mut tracks,
                    branches,
                    cursor,
                    time_signature,
                    cur_instr,
                    cur_vol,
                ) {
                    Err(e) => {
                        return Err(e);
                    },
                    Ok(d) => {
                        proof {
                            lemma_compose_one_frame(pv[i as int], tsi, stc);
                        }
                        d
                    },
                }
            },
            MusicPrimitive::Repeat { num, content } => {
                proof {
                    assert(decreases_to!(*prims => prims@));
                    assert(decreases_to!(prims@ => prims@[i as int]));
                    let sp = prims@[i as int];
                    assert(decreases_to!(sp => sp->Repeat_content));
                    assert(*content == sp->Repeat_content);
                    assert(decreases_to!(*content => content.0));
                    assert(decreases_to!(content.0 => content.0@));
                    assert(pv[i as int] == PrimV::Repeat(*num as int, prims_view(content.0@)));
                }
                match compose_repeat(
                    &mut tracks,
                    *num,
                    content,
                    cursor,
                    time_signature,
                    cur_instr,
                    cur_vol,
                ) {
                    Err(e) => {
                        return Err(e);
                    },
                    Ok(d) => {
                        proof {
                            lemma_compose_one_frame(pv[i as int], tsi, stc);
                        }
                        d
                    },
                }
            },
        };
        let ghost st1 = ComposeStateV {
            tracks: tracks_view(tracks@),
            cursor: stc.cursor,
            instrument: cur_instr,
            volume: cur_vol,
        };
        proof {
            assert(spec_compose_one(pv[i as int], tsi, stc) == Ok::<
                (ComposeStateV, MtV),
                ComposeErrV,
            >((st1, dur@)));
        }
        // Advance the cursor by what the primitive lasted.
        cursor = match cursor.with(time_signature).checked_add(dur) {
            None => {
                return Err(ComposeError::OutOfRange);
            },
            Some(c) => c,
        };
        i += 1;
    }
    proof {
        assert(pv.skip(prims@.len() as int) =~= Seq::<PrimV>::empty());
    }
    Ok((tracks, cursor))
}

impl MusicString {
    /// Compile a fully rewritten music string into per-instrument tracks:
    /// a left-to-right pass that threads the cursor, instrument and
    /// volume, exactly as `spec_compose` says. Compilation fails with
    /// `MismatchedLengths` exactly when some split's branches last
    /// unequally long, and with `OutOfRange` exactly when an exact time
    /// leaves the machine representation.
    pub fn compose(
        &self,
        time_signature: TimeSignature,
        starting_instrument: Option<Instrument>,
    ) -> (r: Result<Composition, ComposeError>)
        requires
            time_signature.0 >= 1,
        ensures
            r matches Ok(c) ==> c@.time_signature == time_signature,
            ({
                let st0 = ComposeStateV {
                    tracks: Seq::empty(),
                    cursor: mtv_zero(),
                    instrument: (match starting_instrument {
                        Some(i) => i,
                        None => Instrument::SineWave,
                    }),
                    volume: Volume(50),
                };
                match (r, spec_compose(self@, time_signature.0 as int, st0)) {
                    (Ok(c), Ok(st)) => c@.tracks == st.tracks && c@.time_signature
                        == time_signature,
                    (Err(ComposeError::MismatchedLengths(_)), Err(ComposeErrV::Mismatched)) => true,
                    (Err(ComposeError::OutOfRange), Err(ComposeErrV::OutOfRange)) => true,
                    _ => false,
                }
            }),
    {
        let instr = match starting_instrument {
            Some(i) => i,
            None => Instrument::SineWave,
        };
        match compose_prims(&self.0, time_signature, instr, Volume(50)) {
            Err(e) => Err(e),
            Ok((tracks, _cursor)) => Ok(Composition { tracks, time_signature }),
        }
    }
}

} // verus!

verus! {

/// Compile the parallel branches of a split at the cursor: each branch
/// composes from a fresh state with the inherited instrument and volume,
/// is shifted to the cursor, and must last exactly as long as the first;
/// the branch tracks merge into the accumulator and the shared duration
/// comes back.
#[verifier::loop_isolation(false)]
#[verifier::rlimit(100)]
fn compose_split(
    tracks: &mut Vec<Track>,
    branches: &Vec<MusicString>,
    cursor: MusicTime,
    time_signature: TimeSignature,
    instr: Instrument,
    vol: Volume,
) -> (r: Result<MusicTime, ComposeError>)
    requires
        time_signature.0 >= 1,
    ensures
        compose_one_res_matches(
            r,
            tracks_view(final(tracks)@),
            spec_compose_one(
                PrimV::Split(strs_view(branches@)),
                time_signature.0 as int,
                ComposeStateV {
                    tracks: tracks_view(old(tracks)@),
                    cursor: cursor@,
                    instrument: instr,
                    volume: vol,
                },
            ),
        ),
        r is Err ==> *final(tracks) == *old(tracks),
    decreases branches@, 3int,
{
    let ghost tsi = time_signature.0 as int;
    let ghost tv0 = tracks_view(tracks@);
    let ghost bs = strs_view(branches@);
    proof {
        lemma_strs_view_index(branches@);
        assert(bs.skip(0) =~= bs);
    }
    let mut raw: Vec<Vec<Track>> = Vec::new();
    let mut k: usize = 0;
    while k < branches.len()
        invariant
            k <= branches@.len(),
            raw@.len() == k,
            spec_compose_branches(bs, tsi, instr, vol) == (match spec_compose_branches(
                bs.skip(k as int),
                tsi,
                instr,
                vol,
            ) {
                Err(e) => Err::<Seq<Seq<TrackV>>, ComposeErrV>(e),
                Ok(rest) => Ok(raw_views(raw@) + rest),
            }),
        decreases branches@.len() - k,
    {
        proof {
            assert(decreases_to!(*branches => branches@));
            assert(decreases_to!(branches@ => branches@[k as int]));
            assert(decreases_to!(branches@[k as int] => branches@[k as int].0));
            let suf = bs.skip(k as int);
            assert(suf[0] == bs[k as int]);
            assert(suf.drop_first() =~= bs.skip(k as int + 1));
            assert(bs[k as int] == prims_view(branches@[k as int].0@));
        }
        match compose_prims(&branches[k].0, time_signature, instr, vol) {
            Err(e) => {
                return Err(e);
            },
            Ok((btracks, _bcursor)) => {
                let ghost pre = raw_views(raw@);
                raw.push(btracks);
                proof {
                    assert(raw_views(raw@) =~= pre.push(tracks_view(btracks@)));
                    if spec_compose_branches(bs.skip(k as int + 1), tsi, instr, vol) is Ok {
                        let rest = spec_compose_branches(
                            bs.skip(k as int + 1),
                            tsi,
                            instr,
                            vol,
                        )->Ok_0;
                        assert(pre + (seq![tracks_view(btracks@)] + rest) =~= raw_views(raw@)
                            + rest);
                    }
                }
            },
        }
        k += 1;
    }
    let ghost rawv = raw_views(raw@);
    proof {
        assert(bs.skip(branches@.len() as int) =~= Seq::<Seq<PrimV>>::empty());
        assert(rawv + Seq::<Seq<TrackV>>::empty() =~= rawv);
        assert(spec_compose_branches(bs, tsi, instr, vol) == Ok::<
            Seq<Seq<TrackV>>,
            ComposeErrV,
        >(rawv));
        assert(rawv.skip(0) =~= rawv);
    }
    // Shift each branch to the cursor and take its duration.
    let mut shifted: Vec<Vec<Track>> = Vec::new();
    let mut durs: Vec<MusicTime> = Vec::new();
    let mut k2: usize = 0;
    while k2 < raw.len()
        invariant
            k2 <= raw@.len(),
            shifted@.len() == durs@.len(),
            shifted@.len() == k2,
            raw@.len() == branches@.len(),
            rawv == raw_views(raw@),
            spec_branches_shift(rawv, cursor@, tsi) == (match spec_branches_shift(
                rawv.skip(k2 as int),
                cursor@,
                tsi,
            ) {
                Err(e) => Err::<Seq<(Seq<TrackV>, MtV)>, ComposeErrV>(e),
                Ok(rest) => Ok(shift_list_views(shifted@, durs@) + rest),
            }),
        decreases raw@.len() - k2,
    {
        proof {
            let suf = rawv.skip(k2 as int);
            assert(suf[0] == rawv[k2 as int]);
            assert(suf.drop_first() =~= rawv.skip(k2 as int + 1));
            assert(rawv[k2 as int] == tracks_view(raw@[k2 as int]@));
        }
        let sh = match shift_tracks_ex(&raw[k2], cursor, time_signature) {
            None => {
                return Err(ComposeError::OutOfRange);
            },
            Some(sh) => sh,
        };
        let (sh, d_opt) = comp_duration_ex(sh, time_signature);
        let d = match d_opt {
            None => {
                return Err(ComposeError::OutOfRange);
            },
            Some(d) => d,
        };
        let ghost pre_list = shift_list_views(shifted@, durs@);
        shifted.push(sh);
        durs.push(d);
        proof {
            assert(shift_list_views(shifted@, durs@) =~= pre_list.push(
                (tracks_view(sh@), d@),
            ));
            if spec_branches_shift(rawv.skip(k2 as int + 1), cursor@, tsi) is Ok {
                let rest = spec_branches_shift(rawv.skip(k2 as int + 1), cursor@, tsi)->Ok_0;
                assert(pre_list + (seq![(tracks_view(sh@), d@)] + rest) =~= shift_list_views(
                    shifted@,
                    durs@,
                ) + rest);
            }
        }
        k2 += 1;
    }
    let ghost list = shift_list_views(shifted@, durs@);
    proof {
        assert(rawv.skip(raw@.len() as int) =~= Seq::<Seq<TrackV>>::empty());
        assert(list + Seq::<(Seq<TrackV>, MtV)>::empty() =~= list);
        assert(spec_branches_shift(rawv, cursor@, tsi) == Ok::<
            Seq<(Seq<TrackV>, MtV)>,
            ComposeErrV,
        >(list));
    }
    if durs.len() == 0 {
        return Ok(MusicTime::zero());
    }
    // All branches must share one duration.
    let first_d = durs[0];
    let mut k3: usize = 1;
    while k3 < durs.len()
        invariant
            1 <= k3,
            durs@.len() > 0,
            forall|j: int| 0 <= j < k3 ==> mt_eq((#[trigger] list[j]).1, list[0].1),
        decreases durs@.len() - k3,
    {
        if !(durs[k3] == first_d) {
            proof {
                assert(!mt_eq(list[k3 as int].1, list[0].1));
            }
            return Err(
                ComposeError::MismatchedLengths(
                    "split branches do not share one duration".to_owned(),
                ),
            );
        }
        k3 += 1;
    }
    // Merge every branch into the accumulated tracks.
    let ghost comps0 = raw_views(shifted@);
    proof {
        lemma_merge_all_seqs(tv0, list);
        assert(list.map_values(|p: (Seq<TrackV>, MtV)| p.0) =~= comps0);
        assert(!(exists|q: int| 0 <= q < list.len() && !mt_eq((#[trigger] list[q]).1, list[0].1)));
    }
    let mut sh_rest = shifted;
    while sh_rest.len() > 0
        invariant
            spec_merge_seqs(tv0, comps0) == spec_merge_seqs(
                tracks_view(tracks@),
                raw_views(sh_rest@),
            ),
        decreases sh_rest@.len(),
    {
        proof {
            let rv = raw_views(sh_rest@);
            assert(rv[0] == tracks_view(sh_rest@[0]@));
            assert(rv.drop_first() =~= raw_views(sh_rest@.drop_first()));
        }
        let b = sh_rest.remove(0);
        merge_comp_ex(tracks, b);
    }
    proof {
        assert(raw_views(sh_rest@) =~= Seq::<Seq<TrackV>>::empty());
        assert(list[0].1 == durs@[0]@);
    }
    Ok(first_d)
}

/// Compile a repeat: the content composes once from a fresh state, and the
/// fixed result is merged in `num` times, each copy shifted one content
/// duration later; the total duration comes back.
#[verifier::loop_isolation(false)]
#[verifier::rlimit(100)]
fn compose_repeat(
    tracks: &mut Vec<Track>,
    num: usize,
    content: &MusicString,
    cursor: MusicTime,
    time_signature: TimeSignature,
    instr: Instrument,
    vol: Volume,
) -> (r: Result<MusicTime, ComposeError>)
    requires
        time_signature.0 >= 1,
    ensures
        compose_one_res_matches(
            r,
            tracks_view(final(tracks)@),
            spec_compose_one(
                PrimV::Repeat(num as int, prims_view(content.0@)),
                time_signature.0 as int,
                ComposeStateV {
                    tracks: tracks_view(old(tracks)@),
                    cursor: cursor@,
                    instrument: instr,
                    volume: vol,
                },
            ),
        ),
    decreases content.0@, 3int,
{
    let ghost tsi = time_signature.0 as int;
    let ghost tv0 = tracks_view(tracks@);
    proof {
        assert(decreases_to!(*content => content.0));
        assert(decreases_to!(content.0 => content.0@));
    }
    let (ctracks, _ccur) = match compose_prims(&content.0, time_signature, instr, vol) {
        Err(e) => {
            return Err(e);
        },
        Ok(pair) => pair,
    };
    let (ctracks, dur_opt) = comp_duration_ex(ctracks, time_signature);
    let ghost cv = tracks_view(ctracks@);
    let dur = match dur_opt {
        None => {
            return Err(ComposeError::OutOfRange);
        },
        Some(d) => d,
    };
    let ghost durv = dur@;
    let mut offset = cursor;
    let mut rep: usize = 0;
    while rep < num
        invariant
            rep <= num,
            cv == tracks_view(ctracks@),
            spec_replicas(tv0, cv, durv, num as int, cursor@, tsi) == spec_replicas(
                tracks_view(tracks@),
                cv,
                durv,
                num as int - rep as int,
                offset@,
                tsi,
            ),
        decreases num - rep,
    {
        let sh = match shift_tracks_ex(&ctracks, offset, time_signature) {
            None => {
                return Err(ComposeError::OutOfRange);
            },
            Some(sh) => sh,
        };
        merge_comp_ex(tracks, sh);
        offset = match offset.with(time_signature).checked_add(dur) {
            None => {
                return Err(ComposeError::OutOfRange);
            },
            Some(o) => o,
        };
        rep += 1;
    }
    let ghost tracks2 = tracks_view(tracks@);
    // The cursor advances by num times the content duration.
    let mut total = MusicTime::zero();
    let mut rep2: usize = 0;
    while rep2 < num
        invariant
            rep2 <= num,
            spec_total_dur(durv, rep2 as int, tsi) == Ok::<MtV, ComposeErrV>(total@),
        decreases num - rep2,
    {
        total = match total.with(time_signature).checked_add(dur) {
            None => {
                proof {
                    lemma_total_dur_err(durv, rep2 as int + 1, num as int, tsi);
                }
                return Err(ComposeError::OutOfRange);
            },
            Some(t) => t,
        };
        rep2 += 1;
    }
    Ok(total)
}

} // verus!

verus! {

impl DeepView for NonTerminal {
    type V = Seq<char>;

    open spec fn deep_view(&self) -> Seq<char> {
        nt_name(*self)
    }
}

impl DeepView for TerminalNote {
    type V = TerminalNote;

    open spec fn deep_view(&self) -> TerminalNote {
        *self
    }
}

impl DeepView for MetaControl {
    type V = MetaControl;

    open spec fn deep_view(&self) -> MetaControl {
        *self
    }
}

pub open spec fn term_view(t: Terminal) -> TermV {
    match t {
        Terminal::Music { duration, note } => TermV::Music { duration: duration@, note },
        Terminal::Meta(m) => TermV::Meta(m),
    }
}

impl DeepView for Terminal {
    type V = TermV;

    open spec fn deep_view(&self) -> TermV {
        term_view(*self)
    }
}

impl DeepView for Symbol {
    type V = SymV;

    open spec fn deep_view(&self) -> SymV {
        sym_view(*self)
    }
}

impl DeepView for MusicPrimitive {
    type V = PrimV;

    open spec fn deep_view(&self) -> PrimV {
        prim_view(*self)
    }
}

impl DeepView for MusicString {
    type V = Seq<PrimV>;

    open spec fn deep_view(&self) -> Seq<PrimV> {
        prims_view(self.0@)
    }
}

impl DeepView for Production {
    type V = ProdV;

    open spec fn deep_view(&self) -> ProdV {
        prod_view(*self)
    }
}

/// Mathematical value of a grammar: the start name and the productions.
pub ghost struct GramV {
    pub start: Seq<char>,
    pub prods: Seq<ProdV>,
}

impl DeepView for Grammar {
    type V = GramV;

    open spec fn deep_view(&self) -> GramV {
        GramV { start: nt_name(self.start), prods: prods_view(self.productions@) }
    }
}

} // verus!
