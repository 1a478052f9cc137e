//! Interned identifier handles and the interner that mints them.

use vstd::prelude::*;

verus! {

/// Opaque, copyable handle for an identifier's text.  Two symbols are equal
/// exactly when they were interned from the same text, so identifiers are
/// compared without looking at strings.
#[derive(Clone, Copy, PartialEq, Eq, Hash, Debug, Structural)]
pub struct Symbol(pub usize);

/// Index of the first string in `strs` equal to `text`, or `-1` when none is.
pub open spec fn find_text(strs: Seq<Seq<char>>, text: Seq<char>) -> int
    decreases strs.len(),
{
    if strs.len() == 0 {
        -1
    } else if strs.first() == text {
        0
    } else {
        let rest = find_text(strs.drop_first(), text);
        if rest == -1 {
            -1
        } else {
            rest + 1
        }
    }
}

/// No two stored texts are equal, so each text has exactly one handle.
pub open spec fn texts_distinct(strs: Seq<Seq<char>>) -> bool {
    forall|i: int, j: int| 0 <= i < j < strs.len() ==> strs[i] != strs[j]
}

/// What interning `text` into `strs` yields: the new text table and the
/// symbol for `text` (the existing one when the text is already present).
pub open spec fn intern_spec(strs: Seq<Seq<char>>, text: Seq<char>) -> (Seq<Seq<char>>, Symbol) {
    let found = find_text(strs, text);
    if found >= 0 {
        (strs, Symbol(found as usize))
    } else {
        (strs.push(text), Symbol(strs.len() as usize))
    }
}

pub proof fn lemma_find_text_properties(strs: Seq<Seq<char>>, text: Seq<char>)
    ensures
        find_text(strs, text) == -1 ==> forall|j: int| 0 <= j < strs.len() ==> strs[j] != text,
        find_text(strs, text) != -1 ==> 0 <= find_text(strs, text) < strs.len()
            && strs[find_text(strs, text)] == text,
    decreases strs.len(),
{
    if strs.len() > 0 && strs.first() != text {
        lemma_find_text_properties(strs.drop_first(), text);
        assert forall|j: int| find_text(strs, text) == -1 && 0 <= j < strs.len()
            implies strs[j] != text by {
            if j > 0 {
                assert(strs.drop_first()[j - 1] == strs[j]);
            }
        }
        if find_text(strs, text) != -1 {
            assert(strs[find_text(strs, text)] == strs.drop_first()[find_text(strs, text) - 1]);
        }
    }
}

pub proof fn lemma_find_text_first(strs: Seq<Seq<char>>, text: Seq<char>, i: int)
    requires
        0 <= i < strs.len(),
        strs[i] == text,
        forall|j: int| 0 <= j < i ==> strs[j] != text,
    ensures
        find_text(strs, text) == i,
    decreases strs.len(),
{
    if i == 0 {
        assert(strs.first() == text);
    } else {
        assert(strs[0] != text);
        assert(strs.drop_first()[i - 1] == strs[i]);
        assert forall|j: int| 0 <= j < i - 1 implies strs.drop_first()[j] != text by {
            assert(strs.drop_first()[j] == strs[j + 1]);
        }
        lemma_find_text_first(strs.drop_first(), text, i - 1);
    }
}

/// Interning is idempotent: right after `intern_spec`, the produced symbol is
/// the one `find_text` yields for the same text, and it names that text.
pub proof fn lemma_intern_idempotent(strs: Seq<Seq<char>>, text: Seq<char>)
    requires
        texts_distinct(strs),
        strs.len() <= usize::MAX,
    ensures
        ({
            let (strs2, sym) = intern_spec(strs, text);
            &&& texts_distinct(strs2)
            &&& (sym.0 as int) < strs2.len()
            &&& strs2[sym.0 as int] == text
            &&& find_text(strs2, text) == sym.0 as int
            &&& strs.len() <= strs2.len()
            &&& forall|j: int| 0 <= j < strs.len() ==> strs2[j] == strs[j]
        }),
{
    lemma_find_text_properties(strs, text);
    let found = find_text(strs, text);
    if found == -1 {
        let strs2 = strs.push(text);
        assert(strs2[strs.len() as int] == text);
        assert forall|j: int| 0 <= j < strs.len() implies strs2[j] != text by {
            assert(strs2[j] == strs[j]);
        }
        lemma_find_text_first(strs2, text, strs.len() as int);
        assert forall|i: int, j: int| 0 <= i < j < strs2.len() implies strs2[i] != strs2[j] by {
            if j < strs.len() {
                assert(strs2[i] == strs[i] && strs2[j] == strs[j]);
            } else {
                assert(strs2[i] == strs[i] && strs2[j] == text);
            }
        }
    }
}

/// Maps identifier text to stable `Symbol` handles and back.  Handles are
/// indices into the table of distinct texts, assigned in interning order.
#[derive(Debug)]
pub struct Interner {
    strings: Vec<String>,
}

impl Interner {
    /// The table of interned texts, in interning order.
    pub closed spec fn view(&self) -> Seq<Seq<char>> {
        self.strings@.map_values(|s: String| s@)
    }

    pub open spec fn wf(&self) -> bool {
        texts_distinct(self@)
    }

    /// The symbol has been handed out by this interner.
    pub open spec fn has_symbol(&self, sym: Symbol) -> bool {
        (sym.0 as int) < self@.len()
    }

    /// The text a registered symbol stands for.
    pub open spec fn spec_text_of(&self, sym: Symbol) -> Seq<char> {
        self@[sym.0 as int]
    }

    pub fn new() -> (r: Interner)
        ensures
            r@ == Seq::<Seq<char>>::empty(),
            r.wf(),
    {
        let r = Interner { strings: Vec::new() };
        proof {
            assert(r@ =~= Seq::<Seq<char>>::empty());
        }
        r
    }

    /// Hand out the symbol for `text`, minting a fresh one when the text has
    /// never been interned.  The same text always yields the same symbol.
    pub fn get_or_intern(&mut self, text: String) -> (r: Symbol)
        requires
            old(self).wf(),
        ensures
            final(self).wf(),
            (final(self)@, r) == intern_spec(old(self)@, text@),
            final(self).has_symbol(r),
            final(self).spec_text_of(r) == text@,
    {
        let n = self.strings.len();
        proof {
            lemma_intern_idempotent(old(self)@, text@);
        }
        let mut i: usize = 0;
        while i < n
            invariant
                n == self.strings@.len(),
                i <= n,
                self@ == old(self)@,
                self.wf(),
                self.strings@ == old(self).strings@,
                forall|j: int| 0 <= j < i ==> self@[j] != text@,
            decreases n - i,
        {
            if self.strings[i] == text {
                proof {
                    assert(self@[i as int] == self.strings@[i as int]@);
                    lemma_find_text_first(self@, text@, i as int);
                }
                return Symbol(i);
            }
            proof {
                assert(self@[i as int] == self.strings@[i as int]@);
            }
            i += 1;
        }
        proof {
            lemma_find_text_properties(self@, text@);
            if find_text(self@, text@) != -1 {
                assert(false);
            }
        }
        let sym = Symbol(n);
        let ghost pre = self@;
        self.strings.push(text);
        proof {
            assert(self@ =~= pre.push(text@));
        }
        sym
    }

    /// The text `sym` was interned from, or nothing when `sym` was never
    /// handed out by this interner.
    pub fn resolve(&self, sym: Symbol) -> (r: Option<&String>)
        ensures
            match r {
                Some(text) => self.has_symbol(sym) && text@ == self.spec_text_of(sym),
                None => !self.has_symbol(sym),
            },
    {
        if sym.0 < self.strings.len() {
            let text = &self.strings[sym.0];
            proof {
                assert(self@[sym.0 as int] == self.strings@[sym.0 as int]@);
            }
            Some(text)
        } else {
            None
        }
    }
}

} // verus!
