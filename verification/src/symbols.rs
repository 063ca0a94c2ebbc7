//! The symbol table: every terminal and nonterminal of a grammar, identified
//! by a stable index, with its definition site, use sites, and precedence.

use vstd::prelude::*;

verus! {

#[derive(Clone, Copy, PartialEq, Eq, Structural, Debug)]
pub enum SymbolKind {
    Terminal,
    NonTerminal,
}

#[derive(Clone, Copy, PartialEq, Eq, Structural, Debug)]
pub enum Associativity {
    Left,
    Right,
    NonAssoc,
}

/// A line/column position in the grammar-specification text.
#[derive(Clone, Copy, PartialEq, Eq, Structural, Debug)]
pub struct Location {
    pub line: usize,
    pub column: usize,
}

/// A precedence level together with its associativity; higher levels bind
/// tighter.
#[derive(Clone, Copy, PartialEq, Eq, Structural, Debug)]
pub struct Precedence {
    pub level: usize,
    pub assoc: Associativity,
}

/// One symbol of the grammar.  `used_at` holds only genuine references (not
/// the definition site), in the order they were recorded.
pub struct Symbol {
    pub name: String,
    pub kind: SymbolKind,
    pub precedence: Option<Precedence>,
    pub defined_at: Option<Location>,
    pub used_at: Vec<Location>,
    pub used_intentionally: bool,
}

/// The arena of all symbols; a symbol is referred to everywhere else by its
/// index in `symbols`, assigned in first-mention order.
pub struct SymbolTable {
    pub symbols: Vec<Symbol>,
}

/// An attempt to give a symbol a second definition site.
pub struct RedefinitionError {
    pub symbol: usize,
    pub first_defined_at: Location,
    pub duplicate_at: Location,
}

impl SymbolTable {
    pub open spec fn spec_len(&self) -> int {
        self.symbols@.len() as int
    }

    pub open spec fn name_of(&self, i: int) -> Seq<char> {
        self.symbols@[i].name@
    }

    /// Names are unique: one symbol per name.
    pub open spec fn wf(&self) -> bool {
        forall|i: int, j: int|
            0 <= i < j < self.spec_len() ==> self.name_of(i) != self.name_of(j)
    }

    /// The first index at or after `i` whose symbol is called `name`.
    pub open spec fn find_from(&self, name: Seq<char>, i: int) -> Option<int>
        decreases self.spec_len() - i,
    {
        if i < 0 || i >= self.spec_len() {
            None
        } else if self.name_of(i) == name {
            Some(i)
        } else {
            self.find_from(name, i + 1)
        }
    }

    pub open spec fn spec_find(&self, name: Seq<char>) -> Option<int> {
        self.find_from(name, 0)
    }

    pub fn new() -> (r: SymbolTable)
        ensures
            r.symbols@.len() == 0,
            r.wf(),
    {
        SymbolTable { symbols: Vec::new() }
    }

    pub fn len(&self) -> (r: usize)
        ensures
            r == self.symbols@.len(),
    {
        self.symbols.len()
    }

    /// `b` is `a` with one more use site and nothing else changed.
    pub open spec fn adds_use(a: Symbol, b: Symbol, loc: Location) -> bool {
        &&& b.name@ == a.name@
        &&& b.kind == a.kind
        &&& b.precedence == a.precedence
        &&& b.defined_at == a.defined_at
        &&& b.used_at@ == a.used_at@.push(loc)
        &&& b.used_intentionally == a.used_intentionally
    }

    /// `s` is a freshly created symbol with the given definition site and use
    /// sites, no precedence, and no intentional-use mark.
    pub open spec fn created(
        s: Symbol,
        name: Seq<char>,
        kind: SymbolKind,
        defined_at: Option<Location>,
        used_at: Seq<Location>,
    ) -> bool {
        &&& s.name@ == name
        &&& s.kind == kind
        &&& s.precedence is None
        &&& s.defined_at == defined_at
        &&& s.used_at@ == used_at
        &&& !s.used_intentionally
    }

    /// A `spec_find` miss means no symbol at or after `i` carries the name.
    pub proof fn lemma_find_none(&self, name: Seq<char>, i: int)
        requires
            self.find_from(name, i) is None,
            0 <= i,
        ensures
            forall|j: int| i <= j < self.spec_len() ==> self.name_of(j) != name,
        decreases self.spec_len() - i,
    {
        if i < self.spec_len() {
            self.lemma_find_none(name, i + 1);
        }
    }

    /// A `spec_find` hit names the index it returns.
    pub proof fn lemma_find_some(&self, name: Seq<char>, i: int, k: int)
        requires
            self.find_from(name, i) == Some(k),
            0 <= i,
        ensures
            i <= k < self.spec_len(),
            self.name_of(k) == name,
        decreases self.spec_len() - i,
    {
        if i < self.spec_len() && self.name_of(i) != name {
            self.lemma_find_some(name, i + 1, k);
        }
    }

    /// The index of the symbol called `name`, if there is one.
    pub fn find(&self, name: &String) -> (r: Option<usize>)
        ensures
            match r {
                Some(i) => i < self.symbols@.len() && self.spec_find(name@) == Some(i as int),
                None => self.spec_find(name@) is None,
            },
    {
        let n = self.symbols.len();
        let mut i: usize = 0;
        while i < n
            invariant
                i <= n,
                n == self.symbols@.len(),
                self.find_from(name@, 0) == self.find_from(name@, i as int),
            decreases n - i,
        {
            if self.symbols[i].name == *name {
                return Some(i);
            }
            i += 1;
        }
        None
    }

    /// `b` is `a` with its definition site set and nothing else changed.
    pub open spec fn sets_definition(a: Symbol, b: Symbol, loc: Location) -> bool {
        &&& b.name@ == a.name@
        &&& b.kind == a.kind
        &&& b.precedence == a.precedence
        &&& b.defined_at == Some(loc)
        &&& b.used_at@ == a.used_at@
        &&& b.used_intentionally == a.used_intentionally
    }

    /// `b` is `a` with its precedence set and nothing else changed.
    pub open spec fn gets_precedence(a: Symbol, b: Symbol, p: Precedence) -> bool {
        &&& b.name@ == a.name@
        &&& b.kind == a.kind
        &&& b.precedence == Some(p)
        &&& b.defined_at == a.defined_at
        &&& b.used_at@ == a.used_at@
        &&& b.used_intentionally == a.used_intentionally
    }

    /// Record a reference to `name` at `location`: the symbol of that name if
    /// one exists (appending the use site), a fresh undefined symbol of the
    /// given kind otherwise.
    pub fn declare(&mut self, name: &String, kind: SymbolKind, location: Location) -> (r: usize)
        requires
            old(self).wf(),
        ensures
            final(self).wf(),
            r < final(self).symbols@.len(),
            match old(self).spec_find(name@) {
                Some(i) => {
                    &&& r == i
                    &&& final(self).symbols@.len() == old(self).symbols@.len()
                    &&& Self::adds_use(old(self).symbols@[i], final(self).symbols@[i], location)
                    &&& forall|j: int|
                        0 <= j < old(self).spec_len() && j != i
                            ==> final(self).symbols@[j] == old(self).symbols@[j]
                },
                None => {
                    &&& r == old(self).symbols@.len()
                    &&& final(self).symbols@.len() == old(self).symbols@.len() + 1
                    &&& Self::created(final(self).symbols@[r as int], name@, kind, None,
                        seq![location])
                    &&& forall|j: int|
                        0 <= j < old(self).spec_len()
                            ==> final(self).symbols@[j] == old(self).symbols@[j]
                },
            },
    {
        match self.find(name) {
            Some(i) => {
                proof {
                    self.lemma_find_some(name@, 0, i as int);
                }
                self.symbols[i].used_at.push(location);
                proof {
                    assert forall|a: int, b: int|
                        0 <= a < b < self.spec_len() implies self.name_of(a) != self.name_of(b) by {
                        assert(self.name_of(a) == old(self).name_of(a));
                        assert(self.name_of(b) == old(self).name_of(b));
                    }
                }
                i
            },
            None => {
                let n = self.symbols.len();
                let mut first_use: Vec<Location> = Vec::new();
                first_use.push(location);
                self.symbols.push(
                    Symbol {
                        name: name.clone(),
                        kind,
                        precedence: None,
                        defined_at: None,
                        used_at: first_use,
                        used_intentionally: false,
                    },
                );
                proof {
                    old(self).lemma_find_none(name@, 0);
                    assert forall|a: int, b: int|
                        0 <= a < b < self.spec_len() implies self.name_of(a) != self.name_of(b) by {
                        if b < n {
                            assert(old(self).name_of(a) != old(self).name_of(b));
                        } else {
                            assert(old(self).name_of(a) != name@);
                        }
                    }
                }
                n
            },
        }
    }

    /// Record a defining occurrence of `name` at `location`: a fresh defined
    /// symbol if the name is new, otherwise the definition site of the known
    /// symbol is set — unless one is already recorded, which is a
    /// redefinition.
    pub fn declare_definition(&mut self, name: &String, kind: SymbolKind, location: Location) -> (r:
        Result<usize, RedefinitionError>)
        requires
            old(self).wf(),
        ensures
            final(self).wf(),
            match old(self).spec_find(name@) {
                Some(i) => {
                    match old(self).symbols@[i].defined_at {
                        Some(first) => {
                            &&& r == Err::<usize, RedefinitionError>(
                                (RedefinitionError {
                                    symbol: i as usize,
                                    first_defined_at: first,
                                    duplicate_at: location,
                                }),
                            )
                            &&& *final(self) == *old(self)
                        },
                        None => {
                            &&& r == Ok::<usize, RedefinitionError>(i as usize)
                            &&& final(self).symbols@.len() == old(self).symbols@.len()
                            &&& Self::sets_definition(old(self).symbols@[i],
                                final(self).symbols@[i], location)
                            &&& forall|j: int|
                                0 <= j < old(self).spec_len() && j != i
                                    ==> final(self).symbols@[j] == old(self).symbols@[j]
                        },
                    }
                },
                None => {
                    &&& r == Ok::<usize, RedefinitionError>(old(self).symbols.len())
                    &&& final(self).symbols@.len() == old(self).symbols@.len() + 1
                    &&& Self::created(final(self).symbols@[old(self).spec_len()], name@, kind,
                        Some(location), Seq::empty())
                    &&& forall|j: int|
                        0 <= j < old(self).spec_len()
                            ==> final(self).symbols@[j] == old(self).symbols@[j]
                },
            },
    {
        match self.find(name) {
            Some(i) => {
                proof {
                    self.lemma_find_some(name@, 0, i as int);
                }
                match self.symbols[i].defined_at {
                    Some(first) => Err(
                        RedefinitionError { symbol: i, first_defined_at: first, duplicate_at: location },
                    ),
                    None => {
                        self.symbols[i].defined_at = Some(location);
                        proof {
                            assert forall|a: int, b: int|
                                0 <= a < b < self.spec_len() implies self.name_of(a)
                                != self.name_of(b) by {
                                assert(self.name_of(a) == old(self).name_of(a));
                                assert(self.name_of(b) == old(self).name_of(b));
                            }
                        }
                        Ok(i)
                    },
                }
            },
            None => {
                let n = self.symbols.len();
                self.symbols.push(
                    Symbol {
                        name: name.clone(),
                        kind,
                        precedence: None,
                        defined_at: Some(location),
                        used_at: Vec::new(),
                        used_intentionally: false,
                    },
                );
                proof {
                    old(self).lemma_find_none(name@, 0);
                    assert forall|a: int, b: int|
                        0 <= a < b < self.spec_len() implies self.name_of(a) != self.name_of(b) by {
                        if b < n {
                            assert(old(self).name_of(a) != old(self).name_of(b));
                        } else {
                            assert(old(self).name_of(a) != name@);
                        }
                    }
                }
                Ok(n)
            },
        }
    }

    /// Record the definition site of a known symbol; a second definition is
    /// a redefinition and leaves the table unchanged.
    pub fn mark_defined(&mut self, sym: usize, location: Location) -> (r: Result<
        (),
        RedefinitionError,
    >)
        requires
            sym < old(self).symbols@.len(),
        ensures
            final(self).symbols@.len() == old(self).symbols@.len(),
            old(self).wf() ==> final(self).wf(),
            match old(self).symbols@[sym as int].defined_at {
                Some(first) => {
                    &&& r == Err::<(), RedefinitionError>(
                        (RedefinitionError {
                            symbol: sym,
                            first_defined_at: first,
                            duplicate_at: location,
                        }),
                    )
                    &&& *final(self) == *old(self)
                },
                None => {
                    &&& r == Ok::<(), RedefinitionError>(())
                    &&& Self::sets_definition(old(self).symbols@[sym as int],
                        final(self).symbols@[sym as int], location)
                    &&& forall|j: int|
                        0 <= j < old(self).spec_len() && j != sym
                            ==> final(self).symbols@[j] == old(self).symbols@[j]
                },
            },
    {
        match self.symbols[sym].defined_at {
            Some(first) => Err(
                RedefinitionError { symbol: sym, first_defined_at: first, duplicate_at: location },
            ),
            None => {
                self.symbols[sym].defined_at = Some(location);
                proof {
                    if old(self).wf() {
                        assert forall|a: int, b: int|
                            0 <= a < b < self.spec_len() implies self.name_of(a) != self.name_of(
                        b) by {
                            assert(self.name_of(a) == old(self).name_of(a));
                            assert(self.name_of(b) == old(self).name_of(b));
                        }
                    }
                }
                Ok(())
            },
        }
    }

    /// Exempt `sym` from the unused-symbol report, as for an error-recovery
    /// token that is deliberately never referenced.
    pub fn mark_used_intentionally(&mut self, sym: usize)
        requires
            sym < old(self).symbols@.len(),
        ensures
            final(self).symbols@.len() == old(self).symbols@.len(),
            old(self).wf() ==> final(self).wf(),
            final(self).symbols@[sym as int].used_intentionally,
            final(self).symbols@[sym as int].name@ == old(self).symbols@[sym as int].name@,
            final(self).symbols@[sym as int].kind == old(self).symbols@[sym as int].kind,
            final(self).symbols@[sym as int].precedence == old(self).symbols@[sym as int].precedence,
            final(self).symbols@[sym as int].defined_at == old(self).symbols@[sym as int].defined_at,
            final(self).symbols@[sym as int].used_at@ == old(self).symbols@[sym as int].used_at@,
            forall|j: int|
                0 <= j < old(self).spec_len() && j != sym
                    ==> final(self).symbols@[j] == old(self).symbols@[j],
    {
        self.symbols[sym].used_intentionally = true;
        proof {
            if old(self).wf() {
                assert forall|a: int, b: int|
                    0 <= a < b < self.spec_len() implies self.name_of(a) != self.name_of(b) by {
                    assert(self.name_of(a) == old(self).name_of(a));
                    assert(self.name_of(b) == old(self).name_of(b));
                }
            }
        }
    }

    /// Give `sym` a precedence level and associativity.
    pub fn set_precedence(&mut self, sym: usize, level: usize, assoc: Associativity)
        requires
            sym < old(self).symbols@.len(),
        ensures
            final(self).symbols@.len() == old(self).symbols@.len(),
            Self::gets_precedence(old(self).symbols@[sym as int], final(self).symbols@[sym as int],
                (Precedence { level, assoc })),
            forall|j: int|
                0 <= j < old(self).spec_len() && j != sym
                    ==> final(self).symbols@[j] == old(self).symbols@[j],
            old(self).wf() ==> final(self).wf(),
    {
        self.symbols[sym].precedence = Some(Precedence { level, assoc });
        proof {
            if old(self).wf() {
                assert forall|a: int, b: int|
                    0 <= a < b < self.spec_len() implies self.name_of(a) != self.name_of(b) by {
                    assert(self.name_of(a) == old(self).name_of(a));
                    assert(self.name_of(b) == old(self).name_of(b));
                }
            }
        }
    }

    /// A symbol that nothing references: no recorded use site, not marked as
    /// intentionally used, and not the start symbol.
    pub open spec fn spec_unused(&self, i: int, start: int) -> bool {
        &&& self.symbols@[i].used_at@.len() == 0
        &&& !self.symbols@[i].used_intentionally
        &&& i != start
    }

    /// A symbol with use sites but no recorded definition.
    pub open spec fn spec_undefined(&self, i: int) -> bool {
        self.symbols@[i].defined_at is None
    }

    /// The symbols nothing references, in first-mention order: each exactly
    /// once, the start symbol excepted.
    pub fn unused_symbols(&self, start: usize) -> (r: Vec<usize>)
        ensures
            forall|k: int|
                0 <= k < r@.len()
                    ==> (#[trigger] r@[k]) < self.symbols@.len()
                    && self.spec_unused(r@[k] as int, start as int),
            forall|i: int|
                0 <= i < self.spec_len() && self.spec_unused(i, start as int)
                    ==> r@.contains(i as usize),
            forall|k: int| 0 <= k < r@.len() - 1 ==> #[trigger] r@[k] < r@[k + 1],
    {
        let n = self.symbols.len();
        let mut r: Vec<usize> = Vec::new();
        let mut i: usize = 0;
        while i < n
            invariant
                i <= n,
                n == self.symbols@.len(),
                forall|k: int|
                    0 <= k < r@.len()
                        ==> (#[trigger] r@[k]) < i && self.spec_unused(r@[k] as int, start as int),
                forall|j: int|
                    0 <= j < i && self.spec_unused(j, start as int) ==> r@.contains(j as usize),
                forall|k: int| 0 <= k < r@.len() - 1 ==> #[trigger] r@[k] < r@[k + 1],
            decreases n - i,
        {
            let ghost prev = r@;
            if self.symbols[i].used_at.len() == 0 && !self.symbols[i].used_intentionally && i
                != start {
                r.push(i);
            }
            proof {
                assert forall|j: int|
                    0 <= j < i + 1 && self.spec_unused(j, start as int) implies r@.contains(
                    j as usize) by {
                    if j < i {
                        let k = choose|k: int| 0 <= k < prev.len() && prev[k] == j as usize;
                        assert(r@[k] == j as usize);
                    } else {
                        assert(r@[r@.len() - 1] == i);
                    }
                }
            }
            i += 1;
        }
        r
    }

    /// The symbols used but never defined, in first-mention order, each
    /// exactly once.
    pub fn undefined_symbols(&self) -> (r: Vec<usize>)
        ensures
            forall|k: int|
                0 <= k < r@.len()
                    ==> (#[trigger] r@[k]) < self.symbols@.len()
                    && self.spec_undefined(r@[k] as int),
            forall|i: int|
                0 <= i < self.spec_len() && self.spec_undefined(i) ==> r@.contains(i as usize),
            forall|k: int| 0 <= k < r@.len() - 1 ==> #[trigger] r@[k] < r@[k + 1],
    {
        let n = self.symbols.len();
        let mut r: Vec<usize> = Vec::new();
        let mut i: usize = 0;
        while i < n
            invariant
                i <= n,
                n == self.symbols@.len(),
                forall|k: int|
                    0 <= k < r@.len()
                        ==> (#[trigger] r@[k]) < i && self.spec_undefined(r@[k] as int),
                forall|j: int| 0 <= j < i && self.spec_undefined(j) ==> r@.contains(j as usize),
                forall|k: int| 0 <= k < r@.len() - 1 ==> #[trigger] r@[k] < r@[k + 1],
            decreases n - i,
        {
            let ghost prev = r@;
            if self.symbols[i].defined_at.is_none() {
                r.push(i);
            }
            proof {
                assert forall|j: int|
                    0 <= j < i + 1 && self.spec_undefined(j) implies r@.contains(j as usize) by {
                    if j < i {
                        let k = choose|k: int| 0 <= k < prev.len() && prev[k] == j as usize;
                        assert(r@[k] == j as usize);
                    } else {
                        assert(r@[r@.len() - 1] == i);
                    }
                }
            }
            i += 1;
        }
        r
    }
}

/// One undefined-symbol diagnostic: the symbol and the use site it was
/// referenced at.
#[derive(Clone, Copy, PartialEq, Eq, Structural, Debug)]
pub struct UndefinedUse {
    pub symbol: usize,
    pub location: Location,
}

impl SymbolTable {
    /// The diagnostics that symbol `i` contributes: one per use site if it
    /// is undefined, none otherwise.
    pub open spec fn sym_undef_uses(&self, i: int) -> Seq<UndefinedUse> {
        if self.spec_undefined(i) {
            self.symbols@[i].used_at@.map_values(
                |loc: Location| UndefinedUse { symbol: i as usize, location: loc },
            )
        } else {
            Seq::empty()
        }
    }

    /// The undefined-symbol diagnostics of the first `n` symbols, in
    /// first-mention order.
    pub open spec fn undef_uses_upto(&self, n: int) -> Seq<UndefinedUse>
        decreases n,
    {
        if n <= 0 {
            Seq::empty()
        } else {
            self.undef_uses_upto(n - 1) + self.sym_undef_uses(n - 1)
        }
    }

    /// Every use site of every undefined symbol, reported exactly once, in
    /// first-mention order of the symbols and recorded order of the sites.
    pub fn undefined_uses(&self) -> (r: Vec<UndefinedUse>)
        ensures
            r@ == self.undef_uses_upto(self.spec_len()),
    {
        let n = self.symbols.len();
        let mut r: Vec<UndefinedUse> = Vec::new();
        let mut i: usize = 0;
        while i < n
            invariant
                i <= n,
                n == self.symbols@.len(),
                r@ == self.undef_uses_upto(i as int),
            decreases n - i,
        {
            if self.symbols[i].defined_at.is_none() {
                let n_uses = self.symbols[i].used_at.len();
                let mut j: usize = 0;
                while j < n_uses
                    invariant
                        j <= n_uses,
                        i < n,
                        n == self.symbols@.len(),
                        self.spec_undefined(i as int),
                        n_uses == self.symbols@[i as int].used_at@.len(),
                        r@ == self.undef_uses_upto(i as int) + self.symbols@[
                        i as int].used_at@.subrange(0, j as int).map_values(
                            |loc: Location| UndefinedUse { symbol: i, location: loc },
                        ),
                    decreases n_uses - j,
                {
                    r.push(
                        UndefinedUse { symbol: i, location: self.symbols[i].used_at[j] },
                    );
                    proof {
                        assert(r@ =~= self.undef_uses_upto(i as int) + self.symbols@[
                        i as int].used_at@.subrange(0, j + 1).map_values(
                            |loc: Location| UndefinedUse { symbol: i, location: loc },
                        ));
                    }
                    j += 1;
                }
                proof {
                    assert(self.symbols@[i as int].used_at@.subrange(0, n_uses as int)
                        =~= self.symbols@[i as int].used_at@);
                    assert(r@ =~= self.undef_uses_upto(i + 1));
                }
            } else {
                proof {
                    assert(r@ =~= self.undef_uses_upto(i + 1));
                }
            }
            i += 1;
        }
        r
    }

    /// Earlier prefixes of the report are stable: extending the scan only
    /// appends records.
    pub proof fn lemma_undef_uses_prefix(&self, a: int, b: int)
        requires
            0 <= a <= b,
        ensures
            self.undef_uses_upto(a).len() <= self.undef_uses_upto(b).len(),
            forall|k: int|
                0 <= k < self.undef_uses_upto(a).len() ==> self.undef_uses_upto(b)[k]
                    == self.undef_uses_upto(a)[k],
        decreases b,
    {
        if a < b {
            self.lemma_undef_uses_prefix(a, b - 1);
        }
    }

    /// A vector is never longer than the address space.
    pub proof fn lemma_len_bound(&self)
        ensures
            self.spec_len() <= usize::MAX,
    {
        vstd::std_specs::vec::axiom_spec_len(&self.symbols);
    }

    /// Every record among the first `m` symbols' diagnostics names a symbol
    /// below `m`.
    pub proof fn lemma_undef_uses_symbols_below(&self, m: int)
        requires
            m <= self.spec_len(),
        ensures
            forall|k: int|
                0 <= k < self.undef_uses_upto(m).len() ==> (#[trigger] self.undef_uses_upto(
                m)[k]).symbol < m,
        decreases m,
    {
        if m > 0 {
            self.lemma_len_bound();
            self.lemma_undef_uses_symbols_below(m - 1);
            assert forall|k: int|
                0 <= k < self.undef_uses_upto(m).len() implies (#[trigger] self.undef_uses_upto(
            m)[k]).symbol < m by {
                if k < self.undef_uses_upto(m - 1).len() {
                    assert(self.undef_uses_upto(m)[k] == self.undef_uses_upto(m - 1)[k]);
                } else {
                    assert(self.undef_uses_upto(m)[k] == self.sym_undef_uses(m - 1)[k
                        - self.undef_uses_upto(m - 1).len()]);
                    assert(self.spec_undefined(m - 1));
                    assert(self.sym_undef_uses(m - 1)[k - self.undef_uses_upto(
                    m - 1).len()].symbol == m - 1);
                }
            }
        }
    }

    /// An undefined symbol is reported exactly once per use site: the
    /// report holds each of its recorded locations at one known position,
    /// and no record for that symbol stands anywhere else.
    pub proof fn lemma_undefined_reported_once_per_use(&self, n: int, i: int)
        requires
            0 <= i < n <= self.spec_len(),
            self.spec_undefined(i),
        ensures
            forall|u: int|
                0 <= u < self.symbols@[i].used_at@.len()
                    ==> self.undef_uses_upto(n)[self.undef_uses_upto(i).len() + u] == (
                UndefinedUse { symbol: i as usize, location: self.symbols@[i].used_at@[u] }),
            forall|k: int|
                0 <= k < self.undef_uses_upto(n).len() && (#[trigger] self.undef_uses_upto(
                    n)[k]).symbol == i ==> self.undef_uses_upto(i).len() <= k
                    < self.undef_uses_upto(i).len() + self.symbols@[i].used_at@.len(),
    {
        self.lemma_undef_uses_symbols_below(i);
        self.lemma_undef_uses_prefix(i + 1, n);
        assert(self.undef_uses_upto(i + 1) == self.undef_uses_upto(i) + self.sym_undef_uses(i));
        assert forall|u: int|
            0 <= u < self.symbols@[i].used_at@.len() implies self.undef_uses_upto(
            n)[self.undef_uses_upto(i).len() + u] == (UndefinedUse {
            symbol: i as usize,
            location: self.symbols@[i].used_at@[u],
        }) by {
            let pos = self.undef_uses_upto(i).len() + u;
            assert(self.undef_uses_upto(i + 1)[pos] == self.sym_undef_uses(i)[u]);
            assert(self.undef_uses_upto(n)[pos] == self.undef_uses_upto(i + 1)[pos]);
        }
        assert forall|k: int|
            0 <= k < self.undef_uses_upto(n).len() && (#[trigger] self.undef_uses_upto(
                n)[k]).symbol == i implies self.undef_uses_upto(i).len() <= k
            < self.undef_uses_upto(i).len() + self.symbols@[i].used_at@.len() by {
            self.lemma_block_position(n, i, k);
        }
    }

    /// A record naming symbol `i` lies inside symbol `i`'s block of the
    /// report.
    proof fn lemma_block_position(&self, n: int, i: int, k: int)
        requires
            n <= self.spec_len(),
            0 <= i < n,
            self.spec_undefined(i),
            0 <= k < self.undef_uses_upto(n).len(),
            self.undef_uses_upto(n)[k].symbol == i,
        ensures
            self.undef_uses_upto(i).len() <= k < self.undef_uses_upto(i).len()
                + self.symbols@[i].used_at@.len(),
        decreases n,
    {
        self.lemma_len_bound();
        if k < self.undef_uses_upto(n - 1).len() {
            assert(self.undef_uses_upto(n)[k] == self.undef_uses_upto(n - 1)[k]);
            if i == n - 1 {
                self.lemma_undef_uses_symbols_below(n - 1);
                assert(false);
            } else {
                self.lemma_block_position(n - 1, i, k);
            }
        } else {
            let off = k - self.undef_uses_upto(n - 1).len();
            assert(self.undef_uses_upto(n)[k] == self.sym_undef_uses(n - 1)[off]);
            assert(self.spec_undefined(n - 1));
            assert(self.sym_undef_uses(n - 1)[off].symbol == n - 1);
            assert(i == n - 1);
            assert(self.undef_uses_upto(i).len() <= k < self.undef_uses_upto(i).len()
                + self.symbols@[i].used_at@.len());
        }
    }
}

/// A strictly ascending report mentions any value at most once: a symbol in
/// the unused or undefined report is reported exactly once.
pub proof fn lemma_reported_once(r: Seq<usize>, k1: int, k2: int)
    requires
        forall|k: int| 0 <= k < r.len() - 1 ==> #[trigger] r[k] < r[k + 1],
        0 <= k1 < r.len(),
        0 <= k2 < r.len(),
        r[k1] == r[k2],
    ensures
        k1 == k2,
    decreases r.len(),
{
    if k1 + 1 < r.len() && k2 + 1 < r.len() {
    }
    if k1 < k2 {
        lemma_ascending_chain(r, k1, k2);
    } else if k2 < k1 {
        lemma_ascending_chain(r, k2, k1);
    }
}

/// In a strictly ascending sequence, a later element is strictly larger.
pub proof fn lemma_ascending_chain(r: Seq<usize>, k1: int, k2: int)
    requires
        forall|k: int| 0 <= k < r.len() - 1 ==> #[trigger] r[k] < r[k + 1],
        0 <= k1 < k2 < r.len(),
    ensures
        r[k1] < r[k2],
    decreases k2 - k1,
{
    if k1 + 1 < k2 {
        lemma_ascending_chain(r, k1 + 1, k2);
    }
}

} // verus!
