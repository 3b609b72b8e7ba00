use vstd::prelude::*;

verus! {

/// An interned name: an index into the symbol table that produced it.
pub type Symbol = u32;

/// Largest number of identifiers one table can hand out.
pub const SYMBOL_LIMIT: usize = 4294967295;

/// Bidirectional name/identifier table. Entry `i` holds the name of
/// identifier `i`, or `None` for a fresh identifier minted by `gensym`.
pub struct SymbolIntern {
    names: Vec<Option<String>>,
}

/// The name of each entry, as a sequence of characters.
pub open spec fn names_view(names: Seq<Option<String>>) -> Seq<Option<Seq<char>>> {
    names.map_values(|n: Option<String>|
        match n {
            Some(s) => Some(s@),
            None => None,
        })
}

/// `new` is `old` followed by fresh identifiers only.
pub open spec fn extends_with_fresh(old: Seq<Option<Seq<char>>>, new: Seq<Option<Seq<char>>>) -> bool {
    &&& new.len() >= old.len()
    &&& new.subrange(0, old.len() as int) == old
    &&& forall|i: int| old.len() <= i < new.len() ==> #[trigger] new[i] is None
}

pub proof fn lemma_extends_with_fresh_trans(
    a: Seq<Option<Seq<char>>>,
    b: Seq<Option<Seq<char>>>,
    c: Seq<Option<Seq<char>>>,
)
    requires
        extends_with_fresh(a, b),
        extends_with_fresh(b, c),
    ensures
        extends_with_fresh(a, c),
{
    assert(c.subrange(0, a.len() as int) =~= c.subrange(0, b.len() as int).subrange(0, a.len() as int));
    assert forall|i: int| a.len() <= i < c.len() implies #[trigger] c[i] is None by {
        if i < b.len() {
            assert(c[i] == c.subrange(0, b.len() as int)[i]);
            assert(b[i] is None);
        }
    }
}

pub proof fn lemma_extends_with_fresh_refl(a: Seq<Option<Seq<char>>>)
    ensures
        extends_with_fresh(a, a),
{
    assert(a.subrange(0, a.len() as int) =~= a);
}

impl View for SymbolIntern {
    type V = Seq<Option<Seq<char>>>;

    closed spec fn view(&self) -> Seq<Option<Seq<char>>> {
        names_view(self.names@)
    }
}

impl SymbolIntern {
    pub open spec fn wf(&self) -> bool {
        self@.len() <= SYMBOL_LIMIT
    }

    pub fn new() -> (r: SymbolIntern)
        ensures
            r@ == Seq::<Option<Seq<char>>>::empty(),
            r.wf(),
    {
        SymbolIntern { names: Vec::new() }
    }

    /// Number of identifiers handed out so far.
    pub fn len(&self) -> (r: usize)
        ensures
            r == self@.len(),
    {
        self.names.len()
    }

    /// The identifier of `name`: the existing one when the name was interned
    /// before, else a new one (the next unused index).
    pub fn intern(&mut self, name: &str) -> (r: Symbol)
        requires
            old(self).wf(),
            old(self)@.len() < SYMBOL_LIMIT,
        ensures
            final(self).wf(),
            (r as int) < final(self)@.len(),
            final(self)@[r as int] == Some(name@),
            forall|j: int| 0 <= j < r ==> old(self)@[j] != Some(name@),
            old(self)@.contains(Some(name@)) ==> final(self)@ == old(self)@,
            !old(self)@.contains(Some(name@)) ==> final(self)@ == old(self)@.push(Some(name@))
                && r as int == old(self)@.len(),
    {
        let owned = name.to_owned();
        let n = self.names.len();
        let mut i: usize = 0;
        while i < n
            invariant
                n == self.names.len(),
                i <= n,
                n < SYMBOL_LIMIT,
                self@ == old(self)@,
                owned@ == name@,
                forall|j: int| 0 <= j < i ==> self@[j] != Some(name@),
            decreases n - i,
        {
            match &self.names[i] {
                Some(s) => {
                    if *s == owned {
                        proof {
                            assert(self@[i as int] == Some(name@));
                        }
                        return i as u32;
                    }
                },
                None => {},
            }
            i = i + 1;
        }
        proof {
            assert(!self@.contains(Some(name@)));
        }
        self.names.push(Some(owned));
        proof {
            assert(self@ =~= old(self)@.push(Some(name@)));
        }
        n as u32
    }

    /// Mints an identifier distinct from every identifier handed out before,
    /// or `None` when the table is full.
    pub fn gensym(&mut self) -> (r: Option<Symbol>)
        requires
            old(self).wf(),
        ensures
            final(self).wf(),
            old(self)@.len() < SYMBOL_LIMIT ==> r == Some(old(self)@.len() as Symbol)
                && final(self)@ == old(self)@.push(None),
            old(self)@.len() >= SYMBOL_LIMIT ==> r is None && final(self)@ == old(self)@,
    {
        let n = self.names.len();
        if n >= SYMBOL_LIMIT {
            return None;
        }
        self.names.push(None);
        proof {
            assert(self@ =~= old(self)@.push(None));
        }
        Some(n as u32)
    }
}

} // verus!
