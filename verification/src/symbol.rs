//! Binding names, source spans and sets of names.

use vstd::prelude::*;

verus! {

/// A region of the query text: offset and length.
#[derive(Clone, Copy, Debug, PartialEq, Eq, Structural)]
pub struct SourceSpan(pub usize, pub usize);

/// The mathematical model of a symbol: its name.
pub type Name = Seq<char>;

/// A binding name. Two symbols are the same binding when their names agree;
/// the span only records where the symbol was written.
#[derive(Debug, PartialEq, Eq)]
pub struct Symbol {
    pub name: String,
    pub span: SourceSpan,
}

impl DeepView for Symbol {
    type V = Seq<char>;

    open spec fn deep_view(&self) -> Seq<char> {
        self.name@
    }
}

impl Clone for Symbol {
    fn clone(&self) -> (r: Symbol)
        ensures
            r == *self,
    {
        Symbol { name: self.name.clone(), span: self.span }
    }
}

impl Symbol {
    pub fn new(name: String, span: SourceSpan) -> (r: Symbol)
        ensures
            r.name == name,
            r.span == span,
    {
        Symbol { name, span }
    }

    /// Whether two symbols name the same binding.
    pub fn same_name(&self, other: &Symbol) -> (r: bool)
        ensures
            r == (self.deep_view() == other.deep_view()),
    {
        self.name == other.name
    }
}

/// The position that a name resolves to in a list of bindings: the last
/// place where it occurs.
pub open spec fn resolve(names: Seq<Name>, n: Name) -> Option<int>
    decreases names.len(),
{
    if names.len() == 0 {
        None
    } else if names.last() == n {
        Some(names.len() - 1)
    } else {
        resolve(names.drop_last(), n)
    }
}

/// A resolved position holds the name, and the name occurs nowhere later.
pub proof fn lemma_resolve(names: Seq<Name>, n: Name)
    ensures
        match resolve(names, n) {
            Some(i) => 0 <= i < names.len() && names[i] == n && forall|j: int|
                i < j < names.len() ==> names[j] != n,
            None => !names.contains(n),
        },
    decreases names.len(),
{
    if names.len() > 0 && names.last() != n {
        lemma_resolve(names.drop_last(), n);
        if resolve(names, n) is None {
            assert forall|j: int| 0 <= j < names.len() implies names[j] != n by {
                if j < names.len() - 1 {
                    assert(names.drop_last()[j] == names[j]);
                }
            }
        } else {
            let i = resolve(names, n)->0;
            assert(names.drop_last()[i] == names[i]);
            assert forall|j: int| i < j < names.len() implies names[j] != n by {
                if j < names.len() - 1 {
                    assert(names.drop_last()[j] == names[j]);
                }
            }
        }
    }
}

/// An executable position as a mathematical one.
pub open spec fn as_position(r: Option<usize>) -> Option<int> {
    match r {
        Some(i) => Some(i as int),
        None => None,
    }
}

/// Finds the position that `s` resolves to among `bindings`.
pub fn position_of(bindings: &Vec<Symbol>, s: &Symbol) -> (r: Option<usize>)
    ensures
        as_position(r) == resolve(bindings.deep_view(), s.deep_view()),
{
    let mut found: Option<usize> = None;
    let mut i: usize = 0;
    assert(bindings.deep_view().take(0) =~= Seq::<Name>::empty());
    while i < bindings.len()
        invariant
            0 <= i <= bindings@.len(),
            as_position(found) == resolve(bindings.deep_view().take(i as int), s.deep_view()),
        decreases bindings@.len() - i,
    {
        proof {
            let names = bindings.deep_view();
            assert(names.take(i as int + 1).drop_last() =~= names.take(i as int));
            assert(names.take(i as int + 1).last() == bindings@[i as int].deep_view());
        }
        if bindings[i].same_name(s) {
            found = Some(i);
        }
        i = i + 1;
    }
    assert(bindings.deep_view().take(i as int) =~= bindings.deep_view());
    found
}

/// A copy of a list of symbols.
pub fn clone_symbols(v: &Vec<Symbol>) -> (r: Vec<Symbol>)
    ensures
        r@ == v@,
        r.deep_view() == v.deep_view(),
{
    let mut out: Vec<Symbol> = Vec::new();
    let mut i: usize = 0;
    while i < v.len()
        invariant
            0 <= i <= v@.len(),
            out@ == v@.take(i as int),
        decreases v@.len() - i,
    {
        out.push(v[i].clone());
        assert(out@ =~= v@.take(i as int + 1));
        i = i + 1;
    }
    assert(out@ =~= v@);
    assert(out.deep_view() =~= v.deep_view());
    out
}

/// A finite set of binding names.
#[derive(Debug)]
pub struct SymbolSet {
    pub items: Vec<Symbol>,
}

impl View for SymbolSet {
    type V = Set<Name>;

    open spec fn view(&self) -> Set<Name> {
        self.items.deep_view().to_set()
    }
}

impl SymbolSet {
    /// The empty set.
    pub fn new() -> (r: SymbolSet)
        ensures
            r@ == Set::<Name>::empty(),
    {
        let r = SymbolSet { items: Vec::new() };
        assert(r@ =~= Set::<Name>::empty());
        r
    }

    pub fn is_empty(&self) -> (r: bool)
        ensures
            r == (self@ == Set::<Name>::empty()),
    {
        let r = self.items.len() == 0;
        proof {
            if r {
                assert(self@ =~= Set::<Name>::empty());
            } else {
                assert(self.items.deep_view().contains(self.items.deep_view()[0]));
                assert(self@.contains(self.items.deep_view()[0]));
            }
        }
        r
    }

    /// Whether the set holds the name of `s`.
    pub fn contains(&self, s: &Symbol) -> (r: bool)
        ensures
            r == self@.contains(s.deep_view()),
    {
        let p = position_of(&self.items, s);
        proof {
            lemma_resolve(self.items.deep_view(), s.deep_view());
        }
        p.is_some()
    }

    /// Adds the name of `s`. A set that already holds it is left as it is.
    pub fn insert(&mut self, s: Symbol)
        ensures
            final(self)@ == old(self)@.insert(s.deep_view()),
            old(self)@.contains(s.deep_view()) ==> *final(self) == *old(self),
    {
        if !self.contains(&s) {
            let ghost before = self.items.deep_view();
            self.items.push(s);
            proof {
                let after = self.items.deep_view();
                assert(after =~= before.push(s.deep_view()));
                assert forall|n: Name| after.to_set().contains(n) <==> before.to_set().insert(
                    s.deep_view(),
                ).contains(n) by {
                    if before.contains(n) {
                        let k = choose|k: int| 0 <= k < before.len() && before[k] == n;
                        assert(after[k] == n);
                    }
                    if n == s.deep_view() {
                        assert(after[before.len() as int] == n);
                    }
                }
                assert(after.to_set() =~= before.to_set().insert(s.deep_view()));
            }
        } else {
            assert(self@.insert(s.deep_view()) =~= self@);
        }
    }

    /// Adds every name of `more`.
    pub fn extend(&mut self, more: &Vec<Symbol>)
        ensures
            final(self)@ == old(self)@.union(more.deep_view().to_set()),
    {
        let mut i: usize = 0;
        assert(more.deep_view().take(0).to_set() =~= Set::<Name>::empty());
        assert(self@ =~= old(self)@.union(more.deep_view().take(0).to_set()));
        while i < more.len()
            invariant
                0 <= i <= more@.len(),
                self@ == old(self)@.union(more.deep_view().take(i as int).to_set()),
            decreases more@.len() - i,
        {
            self.insert(more[i].clone());
            proof {
                let names = more.deep_view();
                assert(names.take(i as int + 1) =~= names.take(i as int).push(names[i as int]));
                lemma_to_set_push(names.take(i as int), names[i as int]);
                assert(self@ =~= old(self)@.union(names.take(i as int + 1).to_set()));
            }
            i = i + 1;
        }
        assert(more.deep_view().take(i as int) =~= more.deep_view());
    }

    /// Whether every name of this set is in `other`.
    pub fn is_subset(&self, other: &SymbolSet) -> (r: bool)
        ensures
            r == self@.subset_of(other@),
    {
        let mut i: usize = 0;
        while i < self.items.len()
            invariant
                0 <= i <= self.items@.len(),
                forall|j: int| 0 <= j < i ==> other@.contains(#[trigger] self.items.deep_view()[j]),
            decreases self.items@.len() - i,
        {
            if !other.contains(&self.items[i]) {
                proof {
                    let n = self.items.deep_view()[i as int];
                    assert(self.items.deep_view().contains(n));
                    assert(self@.contains(n));
                }
                return false;
            }
            i = i + 1;
        }
        proof {
            assert forall|n: Name| self@.contains(n) implies other@.contains(n) by {
                let k = choose|k: int|
                    0 <= k < self.items.deep_view().len() && self.items.deep_view()[k] == n;
                assert(other@.contains(self.items.deep_view()[k]));
            }
        }
        true
    }

    /// A copy of the set.
    pub fn duplicate(&self) -> (r: SymbolSet)
        ensures
            r@ == self@,
    {
        SymbolSet { items: clone_symbols(&self.items) }
    }

    /// The set of the names in `v`.
    pub fn from_symbols(v: &Vec<Symbol>) -> (r: SymbolSet)
        ensures
            r@ == v.deep_view().to_set(),
    {
        SymbolSet { items: clone_symbols(v) }
    }
}

/// The set of a sequence with one more element.
pub proof fn lemma_to_set_push<A>(s: Seq<A>, x: A)
    ensures
        s.push(x).to_set() == s.to_set().insert(x),
{
    assert forall|y: A| s.push(x).to_set().contains(y) <==> s.to_set().insert(x).contains(y) by {
        if s.contains(y) {
            let k = choose|k: int| 0 <= k < s.len() && s[k] == y;
            assert(s.push(x)[k] == y);
        }
        if y == x {
            assert(s.push(x)[s.len() as int] == x);
        }
    }
    assert(s.push(x).to_set() =~= s.to_set().insert(x));
}

} // verus!
