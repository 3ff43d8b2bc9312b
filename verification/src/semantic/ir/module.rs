//! The module: everything the analysis of one program produces.

use vstd::prelude::*;
use vstd::string::StringExecFns;
use crate::parser::ast::span::Span;
use crate::semantic::ir::function::Function;
use crate::semantic::scope::scope::ScopeTable;
use crate::semantic::symbol::symbol::SymbolId;
use crate::semantic::symbol::table::SymbolTable;
use crate::semantic::types::interner::TypeInterner;

verus! {

/// The position of the first function of `functions` with id `id`, or the length
/// where there is none.
pub open spec fn function_index(functions: Seq<Function>, id: SymbolId) -> int
    decreases functions.len(),
{
    if functions.len() == 0 {
        0
    } else if functions[0].id == id {
        0
    } else {
        1 + function_index(functions.drop_first(), id)
    }
}

/// `function_index` is the position of the first function with that id.
pub proof fn lemma_function_index(functions: Seq<Function>, id: SymbolId)
    ensures
        0 <= function_index(functions, id) <= functions.len(),
        forall|j: int| 0 <= j < function_index(functions, id) ==> (#[trigger] functions[j]).id != id,
        function_index(functions, id) < functions.len() ==> functions[function_index(functions, id)].id == id,
    decreases functions.len(),
{
    if functions.len() > 0 && functions[0].id != id {
        lemma_function_index(functions.drop_first(), id);
        assert forall|j: int| 0 <= j < function_index(functions, id) implies (#[trigger] functions[j]).id != id by {
            if j > 0 {
                assert(functions[j] == functions.drop_first()[j - 1]);
            }
        }
    }
}

/// A module of the IR: its functions, types, symbols and scopes.
#[derive(Debug)]
pub struct SemanticModule {
    /// Name of the module
    pub name: String,
    /// Functions defined in this module
    pub functions: Vec<Function>,
    /// Type interner for all types used in this module
    pub types: TypeInterner,
    /// Symbol table for all symbols defined in this module
    pub symbols: SymbolTable,
    /// Scope table for all scopes in this module
    pub scopes: ScopeTable,
}

impl SemanticModule {
    /// An empty module named `name`: no functions, types or symbols, and only a root
    /// scope with an empty span.
    pub fn new(name: String) -> (r: Self)
        ensures
            r.name@ == name@,
            r.functions@.len() == 0,
            r.types.spec_types().len() == 0,
            r.symbols.wf(),
            r.symbols.spec_symbols().len() == 0,
            r.scopes.wf(),
            r.scopes.spec_scopes().len() == 1,
            r.scopes.spec_current() == r.scopes.spec_root(),
    {
        SemanticModule {
            name,
            functions: Vec::new(),
            types: TypeInterner::new(),
            symbols: SymbolTable::new(),
            scopes: ScopeTable::new(Span::empty()),
        }
    }

    /// Adds `function` after the others.
    pub fn add_function(&mut self, function: Function)
        ensures
            final(self).functions@ == old(self).functions@.push(function),
            final(self).name == old(self).name,
            final(self).types == old(self).types,
            final(self).symbols == old(self).symbols,
            final(self).scopes == old(self).scopes,
    {
        self.functions.push(function);
    }

    /// The first function with id `id`, if any.
    pub fn get_function(&self, id: SymbolId) -> (r: Option<&Function>)
        ensures
            r is Some <==> function_index(self.functions@, id) < self.functions@.len(),
            r matches Some(f) ==> *f == self.functions@[function_index(self.functions@, id)],
    {
        let i = self.find_function(id);
        if i < self.functions.len() {
            let f = &self.functions[i];
            assert(*f == self.functions@[i as int]);
            Some(f)
        } else {
            None
        }
    }

    /// Mutable access to the first function with id `id`, if any.
    pub fn get_function_mut(&mut self, id: SymbolId) -> (r: Option<&mut Function>)
        ensures
            r is Some <==> function_index(old(self).functions@, id) < old(self).functions@.len(),
            r matches Some(f) ==> *f == old(self).functions@[function_index(old(self).functions@, id)],
            r matches Some(f) ==> final(self).functions@ == old(self).functions@.update(
                function_index(old(self).functions@, id),
                *final(f),
            ),
            r is None ==> final(self).functions@ == old(self).functions@,
            final(self).name == old(self).name,
            final(self).types == old(self).types,
            final(self).symbols == old(self).symbols,
            final(self).scopes == old(self).scopes,
    {
        let i = self.find_function(id);
        if i < self.functions.len() {
            Some(&mut self.functions[i])
        } else {
            None
        }
    }

    /// The position of the first function with id `id`, or the count of functions.
    fn find_function(&self, id: SymbolId) -> (r: usize)
        ensures
            r == function_index(self.functions@, id),
    {
        proof {
            lemma_function_index(self.functions@, id);
        }
        let mut i: usize = 0;
        while i < self.functions.len()
            invariant
                i <= self.functions@.len(),
                i <= function_index(self.functions@, id),
                0 <= function_index(self.functions@, id) <= self.functions@.len(),
                forall|j: int| 0 <= j < function_index(self.functions@, id) ==> (#[trigger] self.functions@[j]).id != id,
                function_index(self.functions@, id) < self.functions@.len() ==> self.functions@[function_index(self.functions@, id)].id == id,
            decreases self.functions@.len() - i,
        {
            if self.functions[i].id == id {
                return i;
            }
            i = i + 1;
        }
        i
    }
}

} // verus!
