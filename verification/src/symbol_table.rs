//! The symbol table: every definition found in the parsed files, looked up by
//! file and by name.

use vstd::prelude::*;
use crate::text::{str_eq, opt_string_view, clone_opt_string};
use crate::types::{Language, NodeLabel};

verus! {

/// The mathematical content of a symbol definition.
pub struct SymbolInfo {
    pub node_id: Seq<char>,
    pub name: Seq<char>,
    pub label: NodeLabel,
    pub file_path: Seq<char>,
    pub language: Language,
    pub is_exported: bool,
    pub return_type: Option<Seq<char>>,
    pub start_line: Option<u32>,
    pub end_line: Option<u32>,
}

/// A symbol definition extracted from source code.
#[derive(Debug, Clone)]
pub struct SymbolDefinition {
    pub node_id: String,
    pub name: String,
    pub label: NodeLabel,
    pub file_path: String,
    pub language: Language,
    pub is_exported: bool,
    pub return_type: Option<String>,
    pub start_line: Option<u32>,
    pub end_line: Option<u32>,
}

impl View for SymbolDefinition {
    type V = SymbolInfo;

    open spec fn view(&self) -> SymbolInfo {
        SymbolInfo {
            node_id: self.node_id@,
            name: self.name@,
            label: self.label,
            file_path: self.file_path@,
            language: self.language,
            is_exported: self.is_exported,
            return_type: opt_string_view(self.return_type),
            start_line: self.start_line,
            end_line: self.end_line,
        }
    }
}

impl SymbolDefinition {
    /// A copy of this definition.
    pub fn duplicate(&self) -> (r: SymbolDefinition)
        ensures
            r@ == self@,
    {
        SymbolDefinition {
            node_id: self.node_id.clone(),
            name: self.name.clone(),
            label: self.label,
            file_path: self.file_path.clone(),
            language: self.language,
            is_exported: self.is_exported,
            return_type: clone_opt_string(&self.return_type),
            start_line: self.start_line,
            end_line: self.end_line,
        }
    }
}

/// The views of a sequence of definitions.
pub open spec fn defs_view(v: Seq<SymbolDefinition>) -> Seq<SymbolInfo> {
    v.map_values(|d: SymbolDefinition| d@)
}

/// Whether `d` passes a lookup filter: in `file` (if given), named `name` (if
/// given), and exported when `exported_only` is set.
pub open spec fn passes(d: SymbolInfo, file: Option<Seq<char>>, name: Option<Seq<char>>, exported_only: bool) -> bool {
    &&& (match file {
        Some(f) => d.file_path == f,
        None => true,
    })
    &&& (match name {
        Some(n) => d.name == n,
        None => true,
    })
    &&& (exported_only ==> d.is_exported)
}

/// The definitions of `s` that pass the filter, in order.
pub open spec fn select(s: Seq<SymbolInfo>, file: Option<Seq<char>>, name: Option<Seq<char>>, exported_only: bool) -> Seq<SymbolInfo>
    decreases s.len(),
{
    if s.len() == 0 {
        s
    } else {
        let r = select(s.drop_last(), file, name, exported_only);
        if passes(s.last(), file, name, exported_only) {
            r.push(s.last())
        } else {
            r
        }
    }
}

/// Definitions named `name` in the file `file`.
pub open spec fn in_file_named(s: Seq<SymbolInfo>, file: Seq<char>, name: Seq<char>) -> Seq<SymbolInfo> {
    select(s, Some(file), Some(name), false)
}

/// Definitions named `name`, in any file.
pub open spec fn named(s: Seq<SymbolInfo>, name: Seq<char>) -> Seq<SymbolInfo> {
    select(s, None, Some(name), false)
}

/// Exported definitions named `name`.
pub open spec fn exported_named(s: Seq<SymbolInfo>, name: Seq<char>) -> Seq<SymbolInfo> {
    select(s, None, Some(name), true)
}

/// Definitions in the file `file`.
pub open spec fn in_file(s: Seq<SymbolInfo>, file: Seq<char>) -> Seq<SymbolInfo> {
    select(s, Some(file), None, false)
}

/// Definitions outside the file `file`, in order.
pub open spec fn outside_file(s: Seq<SymbolInfo>, file: Seq<char>) -> Seq<SymbolInfo>
    decreases s.len(),
{
    if s.len() == 0 {
        s
    } else {
        let r = outside_file(s.drop_last(), file);
        if s.last().file_path != file {
            r.push(s.last())
        } else {
            r
        }
    }
}

/// A selection holds exactly the elements that pass the filter.
pub proof fn lemma_select_contains(s: Seq<SymbolInfo>, file: Option<Seq<char>>, name: Option<Seq<char>>, exported_only: bool, x: SymbolInfo)
    ensures
        select(s, file, name, exported_only).contains(x) <==> (s.contains(x) && passes(x, file, name, exported_only)),
    decreases s.len(),
{
    if s.len() > 0 {
        lemma_select_contains(s.drop_last(), file, name, exported_only, x);
        let r = select(s.drop_last(), file, name, exported_only);
        if s.contains(x) && !s.drop_last().contains(x) {
            let k = choose|k: int| 0 <= k < s.len() && s[k] == x;
            if k < s.len() - 1 {
                assert(s.drop_last()[k] == x);
            }
        }
        if s.drop_last().contains(x) {
            let k = choose|k: int| 0 <= k < s.drop_last().len() && s.drop_last()[k] == x;
            assert(s[k] == x);
        }
        if passes(s.last(), file, name, exported_only) {
            if r.push(s.last()).contains(x) && !r.contains(x) {
                let k = choose|k: int| 0 <= k < r.push(s.last()).len() && r.push(s.last())[k] == x;
                if k < r.len() {
                    assert(r[k] == x);
                }
            }
            if r.contains(x) {
                let k = choose|k: int| 0 <= k < r.len() && r[k] == x;
                assert(r.push(s.last())[k] == x);
            }
            assert(r.push(s.last())[r.len() as int] == s.last());
        }
        assert(s[s.len() - 1] == s.last());
    }
}

/// Symbol table: the definitions in the order they were inserted.
#[derive(Debug)]
pub struct SymbolTable {
    defs: Vec<SymbolDefinition>,
}

impl View for SymbolTable {
    type V = Seq<SymbolInfo>;

    closed spec fn view(&self) -> Seq<SymbolInfo> {
        defs_view(self.defs@)
    }
}

impl SymbolTable {
    pub fn new() -> (r: Self)
        ensures
            r@ == Seq::<SymbolInfo>::empty(),
    {
        let r = SymbolTable { defs: Vec::new() };
        assert(r@ =~= Seq::<SymbolInfo>::empty());
        r
    }

    /// Insert a symbol definition.
    pub fn insert(&mut self, def: SymbolDefinition)
        ensures
            final(self)@ == old(self)@.push(def@),
    {
        self.defs.push(def);
        assert(defs_view(self.defs@) =~= defs_view(old(self).defs@).push(def@));
    }

    /// Copies of the stored definitions that pass the filter, in order.
    fn collect(&self, file: Option<&str>, name: Option<&str>, exported_only: bool) -> (r: Vec<SymbolDefinition>)
        ensures
            defs_view(r@) == select(
                self@,
                match file {
                    Some(f) => Some(f@),
                    None => None,
                },
                match name {
                    Some(n) => Some(n@),
                    None => None,
                },
                exported_only,
            ),
    {
        let ghost fv: Option<Seq<char>> = match file {
            Some(f) => Some(f@),
            None => None,
        };
        let ghost nv: Option<Seq<char>> = match name {
            Some(n) => Some(n@),
            None => None,
        };
        let ghost s = self@;
        let mut r: Vec<SymbolDefinition> = Vec::new();
        let mut i: usize = 0;
        while i < self.defs.len()
            invariant
                s == defs_view(self.defs@),
                i <= self.defs@.len(),
                fv == (match file {
                    Some(f) => Some(f@),
                    None => None::<Seq<char>>,
                }),
                nv == (match name {
                    Some(n) => Some(n@),
                    None => None::<Seq<char>>,
                }),
                defs_view(r@) == select(s.subrange(0, i as int), fv, nv, exported_only),
            decreases self.defs.len() - i,
        {
            let d = &self.defs[i];
            assert(s.subrange(0, i + 1).drop_last() =~= s.subrange(0, i as int));
            assert(s.subrange(0, i + 1).last() == d@);
            let keep_file = match file {
                Some(f) => str_eq(d.file_path.as_str(), f),
                None => true,
            };
            let keep_name = match name {
                Some(n) => str_eq(d.name.as_str(), n),
                None => true,
            };
            if keep_file && keep_name && (!exported_only || d.is_exported) {
                let ghost before = r@;
                r.push(d.duplicate());
                assert(defs_view(r@) =~= defs_view(before).push(d@));
            }
            i = i + 1;
        }
        assert(s.subrange(0, s.len() as int) =~= s);
        r
    }

    /// Look up symbols by name within a specific file.
    pub fn lookup_in_file(&self, file_path: &str, name: &str) -> (r: Vec<SymbolDefinition>)
        ensures
            defs_view(r@) == in_file_named(self@, file_path@, name@),
    {
        self.collect(Some(file_path), Some(name), false)
    }

    /// Look up symbols by name across all files.
    pub fn lookup_global(&self, name: &str) -> (r: Vec<SymbolDefinition>)
        ensures
            defs_view(r@) == named(self@, name@),
    {
        self.collect(None, Some(name), false)
    }

    /// Look up exported symbols by name.
    pub fn lookup_exported(&self, name: &str) -> (r: Vec<SymbolDefinition>)
        ensures
            defs_view(r@) == exported_named(self@, name@),
    {
        self.collect(None, Some(name), true)
    }

    /// Get all symbols defined in a file, in insertion order.
    pub fn symbols_in_file(&self, file_path: &str) -> (r: Vec<SymbolDefinition>)
        ensures
            defs_view(r@) == in_file(self@, file_path@),
    {
        self.collect(Some(file_path), None, false)
    }

    /// Remove all symbols for a file (used in incremental re-indexing).
    pub fn remove_file(&mut self, file_path: &str)
        ensures
            final(self)@ == outside_file(old(self)@, file_path@),
    {
        let ghost s = self@;
        let mut kept: Vec<SymbolDefinition> = Vec::new();
        let mut i: usize = 0;
        while i < self.defs.len()
            invariant
                s == defs_view(self.defs@),
                i <= self.defs@.len(),
                defs_view(kept@) == outside_file(s.subrange(0, i as int), file_path@),
            decreases self.defs.len() - i,
        {
            let d = &self.defs[i];
            assert(s.subrange(0, i + 1).drop_last() =~= s.subrange(0, i as int));
            assert(s.subrange(0, i + 1).last() == d@);
            if !str_eq(d.file_path.as_str(), file_path) {
                let ghost before = kept@;
                kept.push(d.duplicate());
                assert(defs_view(kept@) =~= defs_view(before).push(d@));
            }
            i = i + 1;
        }
        assert(s.subrange(0, s.len() as int) =~= s);
        self.defs = kept;
    }

    /// The number of stored definitions.
    pub fn total_symbols(&self) -> (r: usize)
        ensures
            r == self@.len(),
    {
        self.defs.len()
    }
}

} // verus!
