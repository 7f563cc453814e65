//! Scoped symbol table and function signature table.
//!
//! Variables live in a stack of scopes: entering a block or a function
//! pushes one, leaving pops it. Redeclaring a name in the same scope
//! (shadowing) replaces the earlier binding; lookups search from the
//! innermost scope outwards.
use vstd::prelude::*;
use crate::text::str_eq;
use crate::types::{Ty, Type, tys_view};

verus! {

/// A variable.
#[derive(Debug)]
pub struct VarSymbol {
    pub name: String,
    /// `Unknown` when declared without type and initializer.
    pub ty: Type,
    /// Declared `mut`.
    pub mutable: bool,
    /// Has been assigned a value.
    pub initialized: bool,
}

/// What the table knows of a variable.
pub struct SymInfo {
    pub ty: Ty,
    pub mutable: bool,
    pub initialized: bool,
}

/// A function signature.
#[derive(Debug)]
pub struct FunctionSig {
    pub name: String,
    /// Each parameter's name, type and mutability.
    pub params: Vec<(String, Type, bool)>,
    /// `Unit` when the function returns nothing.
    pub return_type: Type,
}

/// What the table knows of a function.
pub struct FnInfo {
    pub params: Seq<(Seq<char>, Ty, bool)>,
    pub return_type: Ty,
}

impl VarSymbol {
    pub open spec fn info(self) -> SymInfo {
        SymInfo { ty: self.ty@, mutable: self.mutable, initialized: self.initialized }
    }

    pub fn new(name: String, ty: Type, mutable: bool, initialized: bool) -> (s: Self)
        ensures
            s.name == name,
            s.ty == ty,
            s.mutable == mutable,
            s.initialized == initialized,
    {
        VarSymbol { name, ty, mutable, initialized }
    }
}

impl Clone for VarSymbol {
    fn clone(&self) -> (r: Self)
        ensures
            r.name == self.name,
            r.info() == self.info(),
    {
        VarSymbol { name: self.name.clone(), ty: self.ty.clone(), mutable: self.mutable, initialized: self.initialized }
    }
}

/// The model of a parameter list.
pub open spec fn params_view(ps: Seq<(String, Type, bool)>) -> Seq<(Seq<char>, Ty, bool)> {
    Seq::new(ps.len(), |i: int| (ps[i].0@, ps[i].1@, ps[i].2))
}

impl FunctionSig {
    pub open spec fn info(self) -> FnInfo {
        FnInfo { params: params_view(self.params@), return_type: self.return_type@ }
    }
}

impl Clone for FunctionSig {
    fn clone(&self) -> (r: Self)
        ensures
            r.name == self.name,
            r.info() == self.info(),
    {
        let mut params: Vec<(String, Type, bool)> = Vec::new();
        let mut i: usize = 0;
        while i < self.params.len()
            invariant
                i <= self.params@.len(),
                params@.len() == i,
                forall|j: int| 0 <= j < i ==> (#[trigger] params@[j]).0 == self.params@[j].0
                    && params@[j].1@ == self.params@[j].1@ && params@[j].2 == self.params@[j].2,
            decreases self.params@.len() - i,
        {
            let p = &self.params[i];
            params.push((p.0.clone(), p.1.clone(), p.2));
            i = i + 1;
        }
        let r = FunctionSig { name: self.name.clone(), params, return_type: self.return_type.clone() };
        assert(params_view(r.params@) =~= params_view(self.params@));
        r
    }
}

/// The bindings of one scope: later entries shadow earlier ones.
pub open spec fn scope_map(s: Seq<VarSymbol>) -> Map<Seq<char>, SymInfo>
    decreases s.len(),
{
    if s.len() == 0 {
        Map::empty()
    } else {
        scope_map(s.drop_last()).insert(s.last().name@, s.last().info())
    }
}

/// The functions of a list: later entries replace earlier ones.
pub open spec fn function_map(s: Seq<FunctionSig>) -> Map<Seq<char>, FnInfo>
    decreases s.len(),
{
    if s.len() == 0 {
        Map::empty()
    } else {
        function_map(s.drop_last()).insert(s.last().name@, s.last().info())
    }
}

/// Looks a name up from the innermost scope (the last) outwards.
pub open spec fn lookup_in(scopes: Seq<Map<Seq<char>, SymInfo>>, name: Seq<char>) -> Option<SymInfo>
    decreases scopes.len(),
{
    if scopes.len() == 0 {
        None
    } else if scopes.last().contains_key(name) {
        Some(scopes.last()[name])
    } else {
        lookup_in(scopes.drop_last(), name)
    }
}

/// The first `d` scopes of `b` bind the same names as those of `a`, each
/// with the same mutability, and every initialized binding of `a` is
/// initialized in `b`; both have as many scopes.
pub open spec fn scopes_kept(a: Seq<Map<Seq<char>, SymInfo>>, b: Seq<Map<Seq<char>, SymInfo>>, d: int) -> bool {
    &&& a.len() == b.len()
    &&& forall|k: int, n: Seq<char>|
        #![trigger a[k].contains_key(n)]
        #![trigger b[k].contains_key(n)]
        0 <= k < d && k < a.len() ==> (a[k].contains_key(n) <==> b[k].contains_key(n)) && (a[k].contains_key(n)
            ==> b[k][n].mutable == a[k][n].mutable && (a[k][n].initialized ==> b[k][n].initialized))
}

/// Scopes that keep all scopes of `a` keep what a lookup finds: the same
/// mutability, and initialized if it was.
pub proof fn lemma_lookup_kept(a: Seq<Map<Seq<char>, SymInfo>>, b: Seq<Map<Seq<char>, SymInfo>>, n: Seq<char>)
    requires
        scopes_kept(a, b, a.len() as int),
    ensures
        lookup_in(a, n) is None ==> lookup_in(b, n) is None,
        lookup_in(a, n) matches Some(i) ==> lookup_in(b, n) matches Some(j) && j.mutable == i.mutable && (i.initialized
            ==> j.initialized),
    decreases a.len(),
{
    if a.len() > 0 {
        let k = a.len() - 1;
        assert(a[k].contains_key(n) <==> b[k].contains_key(n));
        if !a.last().contains_key(n) {
            let a2 = a.drop_last();
            let b2 = b.drop_last();
            assert forall|k2: int, n2: Seq<char>|
                #![trigger a2[k2].contains_key(n2)]
                #![trigger b2[k2].contains_key(n2)]
                0 <= k2 < a2.len() as int && k2 < a2.len() implies (a2[k2].contains_key(n2) <==> b2[k2].contains_key(n2))
                && (a2[k2].contains_key(n2) ==> b2[k2][n2].mutable == a2[k2][n2].mutable && (a2[k2][n2].initialized
                ==> b2[k2][n2].initialized)) by {
                assert(a2[k2] == a[k2]);
                assert(b2[k2] == b[k2]);
                assert(a[k2].contains_key(n2) <==> b[k2].contains_key(n2));
            }
            lemma_lookup_kept(a2, b2, n);
        }
    }
}

/// The names a lookup in `t` finds.
pub open spec fn visible(t: SymbolTable) -> Set<Seq<char>> {
    Set::new(|n: Seq<char>| t.lookup_spec(n) is Some)
}

/// Tables whose scopes keep all scopes of `a` see the same names.
pub broadcast proof fn lemma_visible_kept(a: SymbolTable, b: SymbolTable)
    requires
        scopes_kept(a.scopes_view(), b.scopes_view(), a.depth() as int),
    ensures
        #[trigger] visible(a) == #[trigger] visible(b),
{
    assert forall|n: Seq<char>| #[trigger] visible(a).contains(n) == visible(b).contains(n) by {
        lemma_lookup_kept(a.scopes_view(), b.scopes_view(), n);
    }
    assert(visible(a) =~= visible(b));
}

/// Opening an empty scope changes no visible name.
pub proof fn lemma_visible_push(a: SymbolTable, b: SymbolTable)
    requires
        b.scopes_view() == a.scopes_view().push(Map::empty()),
    ensures
        visible(b) == visible(a),
{
    assert forall|n: Seq<char>| #[trigger] visible(b).contains(n) == visible(a).contains(n) by {
        lemma_lookup_push_empty(a.scopes_view(), n);
    }
    assert(visible(b) =~= visible(a));
}

/// Some string of `v` reads `n`.
pub open spec fn has_name(v: Seq<String>, n: Seq<char>) -> bool {
    exists|i: int| 0 <= i < v.len() && (#[trigger] v[i])@ == n
}

/// Position `m` holds the last binding of `n` in the scope `s`.
pub open spec fn last_binding(s: Seq<VarSymbol>, m: int, n: Seq<char>) -> bool {
    &&& 0 <= m < s.len()
    &&& s[m].name@ == n
    &&& forall|q: int| m < q < s.len() ==> (#[trigger] s[q]).name@ != n
}

/// The last binding of `n` in `s` is at position `k` or later and has an
/// unknown type.
pub open spec fn unknown_from(s: Seq<VarSymbol>, k: int, n: Seq<char>) -> bool {
    exists|m: int| k <= m < s.len() && #[trigger] last_binding(s, m, n) && s[m].ty@ is Unknown
}

/// A stack of scopes (the last is the innermost) and a function table.
#[derive(Debug)]
pub struct SymbolTable {
    scopes: Vec<Vec<VarSymbol>>,
    functions: Vec<FunctionSig>,
}

proof fn lemma_scope_map_last(s: Seq<VarSymbol>, name: Seq<char>, i: int)
    requires
        0 <= i < s.len(),
        s[i].name@ == name,
        forall|j: int| i < j < s.len() ==> (#[trigger] s[j]).name@ != name,
    ensures
        scope_map(s).contains_key(name),
        scope_map(s)[name] == s[i].info(),
    decreases s.len(),
{
    if i < s.len() - 1 {
        lemma_scope_map_last(s.drop_last(), name, i);
    }
}

proof fn lemma_scope_map_absent(s: Seq<VarSymbol>, name: Seq<char>)
    requires
        forall|j: int| 0 <= j < s.len() ==> (#[trigger] s[j]).name@ != name,
    ensures
        !scope_map(s).contains_key(name),
    decreases s.len(),
{
    if s.len() > 0 {
        lemma_scope_map_absent(s.drop_last(), name);
    }
}

proof fn lemma_scope_map_update(s: Seq<VarSymbol>, i: int, x: VarSymbol)
    requires
        0 <= i < s.len(),
        x.name@ == s[i].name@,
        forall|j: int| i < j < s.len() ==> (#[trigger] s[j]).name@ != x.name@,
    ensures
        scope_map(s.update(i, x)) == scope_map(s).insert(x.name@, x.info()),
    decreases s.len(),
{
    if i == s.len() - 1 {
        assert(s.update(i, x).drop_last() =~= s.drop_last());
        assert(scope_map(s.update(i, x)) =~= scope_map(s).insert(x.name@, x.info()));
    } else {
        lemma_scope_map_update(s.drop_last(), i, x);
        assert(s.update(i, x).drop_last() =~= s.drop_last().update(i, x));
        assert(scope_map(s.update(i, x)) =~= scope_map(s).insert(x.name@, x.info()));
    }
}

proof fn lemma_function_map_last(s: Seq<FunctionSig>, name: Seq<char>, i: int)
    requires
        0 <= i < s.len(),
        s[i].name@ == name,
        forall|j: int| i < j < s.len() ==> (#[trigger] s[j]).name@ != name,
    ensures
        function_map(s).contains_key(name),
        function_map(s)[name] == s[i].info(),
    decreases s.len(),
{
    if i < s.len() - 1 {
        lemma_function_map_last(s.drop_last(), name, i);
    }
}

proof fn lemma_function_map_absent(s: Seq<FunctionSig>, name: Seq<char>)
    requires
        forall|j: int| 0 <= j < s.len() ==> (#[trigger] s[j]).name@ != name,
    ensures
        !function_map(s).contains_key(name),
    decreases s.len(),
{
    if s.len() > 0 {
        lemma_function_map_absent(s.drop_last(), name);
    }
}

/// Looking up in all scopes is looking up in the first `k` scopes when the
/// later ones lack the name.
proof fn lemma_lookup_in_prefix(scopes: Seq<Map<Seq<char>, SymInfo>>, name: Seq<char>, k: int)
    requires
        0 <= k <= scopes.len(),
        forall|j: int| k <= j < scopes.len() ==> !(#[trigger] scopes[j]).contains_key(name),
    ensures
        lookup_in(scopes, name) == lookup_in(scopes.subrange(0, k), name),
    decreases scopes.len(),
{
    if k < scopes.len() {
        lemma_lookup_in_prefix(scopes.drop_last(), name, k);
        assert(scopes.drop_last().subrange(0, k) =~= scopes.subrange(0, k));
    } else {
        assert(scopes.subrange(0, k) =~= scopes);
    }
}

/// Updating the binding of `name` in the innermost scope that has it
/// changes what a lookup of `name` finds, and nothing else.
proof fn lemma_lookup_update(scopes: Seq<Map<Seq<char>, SymInfo>>, i: int, name: Seq<char>, info: SymInfo)
    requires
        0 <= i < scopes.len(),
        scopes[i].contains_key(name),
        forall|j: int| i < j < scopes.len() ==> !(#[trigger] scopes[j]).contains_key(name),
    ensures
        lookup_in(scopes.update(i, scopes[i].insert(name, info)), name) == Some(info),
        forall|n: Seq<char>| n != name ==> #[trigger] lookup_in(scopes.update(i, scopes[i].insert(name, info)), n)
            == lookup_in(scopes, n),
    decreases scopes.len(),
{
    let nv = scopes.update(i, scopes[i].insert(name, info));
    if i < scopes.len() - 1 {
        lemma_lookup_update(scopes.drop_last(), i, name, info);
        assert(nv.drop_last() =~= scopes.drop_last().update(i, scopes[i].insert(name, info)));
        assert(nv.last() == scopes.last());
        assert forall|n: Seq<char>| n != name implies #[trigger] lookup_in(nv, n) == lookup_in(scopes, n) by {
            if !nv.last().contains_key(n) {
                assert(lookup_in(nv.drop_last(), n) == lookup_in(scopes.drop_last(), n));
            }
        }
    } else {
        assert(nv.drop_last() =~= scopes.drop_last());
        assert forall|n: Seq<char>| n != name implies #[trigger] lookup_in(nv, n) == lookup_in(scopes, n) by {
            assert(nv.last().contains_key(n) == scopes.last().contains_key(n));
        }
    }
}

impl SymbolTable {
    /// The scopes, outermost first, each as a map from names to variables.
    pub closed spec fn scopes_view(&self) -> Seq<Map<Seq<char>, SymInfo>> {
        Seq::new(self.scopes@.len(), |i: int| scope_map(self.scopes@[i]@))
    }

    /// The function table.
    pub closed spec fn functions_view(&self) -> Map<Seq<char>, FnInfo> {
        function_map(self.functions@)
    }

    /// The number of open scopes.
    pub open spec fn depth(&self) -> nat {
        self.scopes_view().len()
    }

    /// What a lookup of `name` finds.
    pub open spec fn lookup_spec(&self, name: Seq<char>) -> Option<SymInfo> {
        lookup_in(self.scopes_view(), name)
    }

    /// There is always at least the outermost scope.
    pub open spec fn wf(&self) -> bool {
        self.depth() >= 1
    }

    proof fn lemma_scopes_view(&self)
        ensures
            self.scopes_view().len() == self.scopes@.len(),
            forall|i: int| 0 <= i < self.scopes@.len() ==> #[trigger] self.scopes_view()[i] == scope_map(
                self.scopes@[i]@,
            ),
    {
    }

    /// A table with one (outermost) scope and no functions.
    pub fn new() -> (t: Self)
        ensures
            t.wf(),
            t.depth() == 1,
            t.scopes_view()[0] == Map::<Seq<char>, SymInfo>::empty(),
            t.functions_view() == Map::<Seq<char>, FnInfo>::empty(),
    {
        let mut scopes: Vec<Vec<VarSymbol>> = Vec::new();
        scopes.push(Vec::new());
        let t = SymbolTable { scopes, functions: Vec::new() };
        assert(t.scopes_view()[0] =~= Map::<Seq<char>, SymInfo>::empty());
        t
    }

    /// Opens a new, empty innermost scope.
    pub fn push_scope(&mut self)
        requires
            old(self).wf(),
        ensures
            final(self).wf(),
            final(self).scopes_view() == old(self).scopes_view().push(Map::empty()),
            final(self).functions_view() == old(self).functions_view(),
    {
        self.scopes.push(Vec::new());
        assert(self.scopes_view() =~= old(self).scopes_view().push(Map::empty()));
    }

    /// Closes the innermost scope, unless it is the only one.
    pub fn pop_scope(&mut self)
        requires
            old(self).wf(),
        ensures
            final(self).wf(),
            old(self).depth() > 1 ==> final(self).scopes_view() == old(self).scopes_view().drop_last(),
            old(self).depth() == 1 ==> final(self).scopes_view() == old(self).scopes_view(),
            final(self).functions_view() == old(self).functions_view(),
    {
        if self.scopes.len() > 1 {
            self.scopes.pop();
            assert(self.scopes_view() =~= old(self).scopes_view().drop_last());
        }
    }

    /// Declares a variable in the innermost scope, shadowing any binding of
    /// the same name there.
    pub fn declare(&mut self, sym: VarSymbol)
        requires
            old(self).wf(),
        ensures
            final(self).wf(),
            final(self).scopes_view() == old(self).scopes_view().update(
                old(self).depth() - 1,
                old(self).scopes_view().last().insert(sym.name@, sym.info()),
            ),
            final(self).functions_view() == old(self).functions_view(),
    {
        let ghost name = sym.name@;
        let ghost info = sym.info();
        let mut scope = self.scopes.pop().unwrap();
        let ghost old_scope = scope@;
        scope.push(sym);
        assert(scope@.drop_last() =~= old_scope);
        self.scopes.push(scope);
        assert(self.scopes_view() =~= old(self).scopes_view().update(
            old(self).depth() - 1,
            old(self).scopes_view().last().insert(name, info),
        ));
    }

    fn find_in_scope(scope: &Vec<VarSymbol>, name: &str) -> (r: Option<usize>)
        ensures
            r matches Some(j) ==> j < scope@.len() && scope@[j as int].name@ == name@ && forall|k: int|
                j < k < scope@.len() ==> (#[trigger] scope@[k]).name@ != name@,
            r is None ==> forall|k: int| 0 <= k < scope@.len() ==> (#[trigger] scope@[k]).name@ != name@,
    {
        let mut j: usize = scope.len();
        while j > 0
            invariant
                j <= scope@.len(),
                forall|k: int| j <= k < scope@.len() ==> (#[trigger] scope@[k]).name@ != name@,
            decreases j,
        {
            if str_eq(scope[j - 1].name.as_str(), name) {
                return Some(j - 1);
            }
            j = j - 1;
        }
        None
    }

    /// Finds the innermost scope declaring `name`, and the binding there.
    fn locate(&self, name: &str) -> (r: Option<(usize, usize)>)
        requires
            self.wf(),
        ensures
            r matches Some((i, j)) ==> {
                &&& i < self.scopes@.len()
                &&& j < self.scopes@[i as int]@.len()
                &&& self.scopes@[i as int]@[j as int].name@ == name@
                &&& forall|k: int| j < k < self.scopes@[i as int]@.len() ==> (#[trigger] self.scopes@[i as int]@[k]).name@ != name@
                &&& self.lookup_spec(name@) == Some(self.scopes@[i as int]@[j as int].info())
                &&& self.lookup_spec(name@) == lookup_in(self.scopes_view().subrange(0, i + 1), name@)
                &&& self.scopes_view()[i as int].contains_key(name@)
                &&& forall|k: int| i < k < self.scopes@.len() ==> !(#[trigger] self.scopes_view()[k]).contains_key(name@)
            },
            r is None ==> self.lookup_spec(name@) is None,
    {
        proof {
            self.lemma_scopes_view();
        }
        let mut i: usize = self.scopes.len();
        while i > 0
            invariant
                i <= self.scopes@.len(),
                self.scopes_view().len() == self.scopes@.len(),
                forall|k: int| i <= k < self.scopes@.len() ==> !(#[trigger] self.scopes_view()[k]).contains_key(name@),
            decreases i,
        {
            match Self::find_in_scope(&self.scopes[i - 1], name) {
                Some(j) => {
                    proof {
                        lemma_scope_map_last(self.scopes@[i - 1]@, name@, j as int);
                        lemma_lookup_in_prefix(self.scopes_view(), name@, i as int);
                        let pre = self.scopes_view().subrange(0, i as int);
                        assert(pre.last() == self.scopes_view()[i - 1]);
                    }
                    return Some((i - 1, j));
                },
                None => {
                    proof {
                        lemma_scope_map_absent(self.scopes@[i - 1]@, name@);
                    }
                },
            }
            i = i - 1;
        }
        proof {
            lemma_lookup_in_prefix(self.scopes_view(), name@, 0);
            assert(self.scopes_view().subrange(0, 0).len() == 0);
        }
        None
    }

    /// Finds the binding of `name` in the innermost scope that has one.
    pub fn lookup(&self, name: &str) -> (r: Option<&VarSymbol>)
        requires
            self.wf(),
        ensures
            r is Some == self.lookup_spec(name@) is Some,
            r matches Some(s) ==> s.name@ == name@ && self.lookup_spec(name@) == Some(s.info()),
    {
        match self.locate(name) {
            Some((i, j)) => Some(&self.scopes[i][j]),
            None => None,
        }
    }

    /// Like [`SymbolTable::lookup`], with write access to the binding found;
    /// what is written through it becomes the binding in that scope.
    pub fn lookup_mut(&mut self, name: &str) -> (r: Option<&mut VarSymbol>)
        requires
            old(self).wf(),
        ensures
            r is Some == old(self).lookup_spec(name@) is Some,
            r matches Some(s) ==> s.name@ == name@ && old(self).lookup_spec(name@) == Some(s.info()),
            r is None ==> final(self).scopes_view() == old(self).scopes_view(),
            final(self).functions_view() == old(self).functions_view(),
            final(self).depth() == old(self).depth(),
            r is Some && final(r->0).name@ == name@ ==> final(self).lookup_spec(name@) == Some(final(r->0).info()),
            r is Some && final(r->0).name@ == name@ ==> forall|n: Seq<char>|
                n != name@ ==> #[trigger] final(self).lookup_spec(n) == old(self).lookup_spec(n),
            r is Some && final(r->0).name@ == name@ ==> exists|i: int|
                0 <= i < old(self).depth() && (#[trigger] old(self).scopes_view()[i]).contains_key(name@) && (forall|k: int|
                    i < k < old(self).depth() ==> !(#[trigger] old(self).scopes_view()[k]).contains_key(name@))
                    && final(self).scopes_view() == old(self).scopes_view().update(
                    i,
                    old(self).scopes_view()[i].insert(name@, final(r->0).info()),
                ),
    {
        match self.locate(name) {
            Some((i, j)) => {
                proof {
                    self.lemma_scopes_view();
                }
                proof {
                    Self::lemma_write_through(*self, name@, i as int, j as int);
                    Self::lemma_write_through_view(*self, name@, i as int, j as int);
                }
                let r = &mut self.scopes[i][j];
                Some(r)
            },
            None => None,
        }
    }

    /// A table `t2` that is `t` with the binding at scope `i`, position `j`
    /// (the one a lookup of `name` finds in `t`) overwritten by one of the
    /// same name finds that binding for `name` and what `t` finds for any
    /// other name.
    /// Overwriting the binding at scope `i`, position `j` (the last of
    /// `name` there) changes only what scope `i` binds `name` to.
    proof fn lemma_write_through_view(t: SymbolTable, name: Seq<char>, i: int, j: int)
        requires
            0 <= i < t.scopes@.len(),
            0 <= j < t.scopes@[i]@.len(),
            t.scopes@[i]@[j].name@ == name,
            forall|k: int| j < k < t.scopes@[i]@.len() ==> (#[trigger] t.scopes@[i]@[k]).name@ != name,
        ensures
            forall|t2: SymbolTable|
                #![trigger t2.scopes_view()]
                t2.scopes@ == t.scopes@.update(i, t2.scopes@[i]) && t2.scopes@[i]@ == t.scopes@[i]@.update(
                    j,
                    t2.scopes@[i]@[j],
                ) && t2.scopes@[i]@[j].name@ == name ==> t2.scopes_view() == t.scopes_view().update(
                    i,
                    t.scopes_view()[i].insert(name, t2.scopes@[i]@[j].info()),
                ),
    {
        assert forall|t2: SymbolTable|
            #![trigger t2.scopes_view()]
            t2.scopes@ == t.scopes@.update(i, t2.scopes@[i]) && t2.scopes@[i]@ == t.scopes@[i]@.update(
                j,
                t2.scopes@[i]@[j],
            ) && t2.scopes@[i]@[j].name@ == name implies t2.scopes_view() == t.scopes_view().update(
                i,
                t.scopes_view()[i].insert(name, t2.scopes@[i]@[j].info()),
            ) by {
            lemma_scope_map_update(t.scopes@[i]@, j, t2.scopes@[i]@[j]);
            assert(t2.scopes_view() =~= t.scopes_view().update(
                i,
                t.scopes_view()[i].insert(name, t2.scopes@[i]@[j].info()),
            ));
        }
    }

    proof fn lemma_write_through(t: SymbolTable, name: Seq<char>, i: int, j: int)
        requires
            0 <= i < t.scopes@.len(),
            0 <= j < t.scopes@[i]@.len(),
            t.scopes@[i]@[j].name@ == name,
            forall|k: int| j < k < t.scopes@[i]@.len() ==> (#[trigger] t.scopes@[i]@[k]).name@ != name,
            forall|k: int| i < k < t.scopes@.len() ==> !(#[trigger] t.scopes_view()[k]).contains_key(name),
        ensures
            forall|t2: SymbolTable, n: Seq<char>|
                #![trigger t2.lookup_spec(n)]
                t2.scopes@ == t.scopes@.update(i, t2.scopes@[i]) && t2.scopes@[i]@ == t.scopes@[i]@.update(
                    j,
                    t2.scopes@[i]@[j],
                ) && t2.scopes@[i]@[j].name@ == name ==> t2.lookup_spec(n) == (if n == name {
                    Some(t2.scopes@[i]@[j].info())
                } else {
                    t.lookup_spec(n)
                }),
    {
        t.lemma_scopes_view();
        let views = t.scopes_view();
        assert forall|t2: SymbolTable, n: Seq<char>|
            #![trigger t2.lookup_spec(n)]
            t2.scopes@ == t.scopes@.update(i, t2.scopes@[i]) && t2.scopes@[i]@ == t.scopes@[i]@.update(
                j,
                t2.scopes@[i]@[j],
            ) && t2.scopes@[i]@[j].name@ == name implies t2.lookup_spec(n) == (if n == name {
                Some(t2.scopes@[i]@[j].info())
            } else {
                t.lookup_spec(n)
            }) by {
            let x = t2.scopes@[i]@[j];
            t2.lemma_scopes_view();
            lemma_scope_map_update(t.scopes@[i]@, j, x);
            lemma_scope_map_last(t.scopes@[i]@, name, j);
            lemma_lookup_update(views, i, name, x.info());
            let nv = views.update(i, views[i].insert(name, x.info()));
            assert(t2.scopes_view() =~= nv);
            if n != name {
                assert(lookup_in(nv, n) == lookup_in(views, n));
            }
        }
    }

    /// Gives the binding that a lookup of `name` finds the type `ty` and
    /// marks it initialized; nothing else changes. Without such a binding the
    /// table stays as it is.
    pub fn assign_binding(&mut self, name: &str, ty: Type)
        requires
            old(self).wf(),
        ensures
            final(self).wf(),
            final(self).depth() == old(self).depth(),
            final(self).functions_view() == old(self).functions_view(),
            old(self).lookup_spec(name@) is None ==> final(self).scopes_view() == old(self).scopes_view(),
            old(self).lookup_spec(name@) matches Some(info) ==> final(self).lookup_spec(name@) == Some(
                SymInfo { ty: ty@, mutable: info.mutable, initialized: true },
            ),
            forall|n: Seq<char>| n != name@ ==> #[trigger] final(self).lookup_spec(n) == old(self).lookup_spec(n),
            scopes_kept(old(self).scopes_view(), final(self).scopes_view(), old(self).depth() as int),
    {
        match self.locate(name) {
            Some((i, j)) => {
                proof {
                    self.lemma_scopes_view();
                }
                let ghost old_views = self.scopes_view();
                let mut scope: Vec<VarSymbol> = Vec::new();
                std::mem::swap(&mut scope, &mut self.scopes[i]);
                let ghost old_scope = scope@;
                let mutable = scope[j].mutable;
                let sym_name = scope[j].name.clone();
                let sym = VarSymbol { name: sym_name, ty, mutable, initialized: true };
                let ghost new_info = sym.info();
                scope.set(j, sym);
                proof {
                    lemma_scope_map_update(old_scope, j as int, scope@[j as int]);
                    assert(scope@ == old_scope.update(j as int, scope@[j as int]));
                }
                self.scopes.set(i, scope);
                proof {
                    self.lemma_scopes_view();
                    let nv = old_views.update(i as int, old_views[i as int].insert(name@, new_info));
                    assert(self.scopes_view() =~= nv);
                    lemma_lookup_update(old_views, i as int, name@, new_info);
                }
            },
            None => {},
        }
    }

    /// Registers a function signature, replacing one of the same name.
    pub fn declare_function(&mut self, sig: FunctionSig)
        requires
            old(self).wf(),
        ensures
            final(self).wf(),
            final(self).scopes_view() == old(self).scopes_view(),
            final(self).functions_view() == old(self).functions_view().insert(sig.name@, sig.info()),
    {
        let ghost name = sig.name@;
        let ghost info = sig.info();
        self.functions.push(sig);
        assert(self.functions@.drop_last() =~= old(self).functions@);
    }

    /// The signature registered under `name`, if any.
    pub fn lookup_function(&self, name: &str) -> (r: Option<&FunctionSig>)
        ensures
            r is Some == self.functions_view().contains_key(name@),
            r matches Some(f) ==> f.name@ == name@ && self.functions_view()[name@] == f.info(),
    {
        let mut j: usize = self.functions.len();
        while j > 0
            invariant
                j <= self.functions@.len(),
                forall|k: int| j <= k < self.functions@.len() ==> (#[trigger] self.functions@[k]).name@ != name@,
            decreases j,
        {
            if str_eq(self.functions[j - 1].name.as_str(), name) {
                proof {
                    lemma_function_map_last(self.functions@, name@, j - 1);
                }
                return Some(&self.functions[j - 1]);
            }
            j = j - 1;
        }
        proof {
            lemma_function_map_absent(self.functions@, name@);
        }
        None
    }

    /// The names bound in the innermost scope whose type is still unknown,
    /// each once.
    pub fn current_scope_uninferred_names(&self) -> (r: Vec<String>)
        requires
            self.wf(),
        ensures
            forall|n: Seq<char>|
                #[trigger] has_name(r@, n) <==> (self.scopes_view().last().contains_key(n)
                    && self.scopes_view().last()[n].ty is Unknown),
            forall|i: int, j: int| 0 <= i < j < r@.len() ==> (#[trigger] r@[i])@ != (#[trigger] r@[j])@,
    {
        proof {
            self.lemma_scopes_view();
        }
        let scope = &self.scopes[self.scopes.len() - 1];
        let ghost s = scope@;
        let mut names: Vec<String> = Vec::new();
        let mut k: usize = scope.len();
        // scan from the end, keeping each name's last binding
        while k > 0
            invariant
                k <= s.len(),
                s == scope@,
                forall|i: int, j: int| 0 <= i < j < names@.len() ==> (#[trigger] names@[i])@ != (#[trigger] names@[j])@,
                forall|n: Seq<char>| #[trigger] has_name(names@, n) <==> unknown_from(s, k as int, n),
            decreases k,
        {
            let sym = &scope[k - 1];
            let shadowed = Self::find_later(scope, k, sym.name.as_str());
            let unknown = match sym.ty {
                Type::Unknown => true,
                _ => false,
            };
            let ghost before = names@;
            let ghost km = (k - 1) as int;
            assert(forall|n: Seq<char>| #[trigger] has_name(before, n) <==> unknown_from(s, k as int, n));
            if !shadowed && unknown {
                proof {
                    assert(last_binding(s, km, sym.name@));
                    assert forall|i: int| 0 <= i < before.len() implies (#[trigger] before[i])@ != sym.name@ by {
                        if before[i]@ == sym.name@ {
                            assert(has_name(before, sym.name@));
                            let m = choose|m: int| k <= m < s.len() && #[trigger] last_binding(s, m, sym.name@) && s[m].ty@ is Unknown;
                            assert(s[m].name@ == sym.name@);
                        }
                    }
                }
                names.push(sym.name.clone());
            }
            assert(names@.len() >= before.len());
            assert(forall|i: int| 0 <= i < before.len() ==> names@[i] == before[i]);
            assert(names@.len() > before.len() ==> names@.len() == before.len() + 1 && names@[before.len() as int]@ == sym.name@
                && !shadowed && unknown);
            proof {
                assert forall|n: Seq<char>| #[trigger] has_name(names@, n) <==> unknown_from(s, km, n) by {
                    if has_name(names@, n) {
                        let i = choose|i: int| 0 <= i < names@.len() && (#[trigger] names@[i])@ == n;
                        if i < before.len() {
                            assert(before[i]@ == n);
                            assert(has_name(before, n));
                            let m = choose|m: int| k <= m < s.len() && #[trigger] last_binding(s, m, n) && s[m].ty@ is Unknown;
                            assert(km <= m);
                        } else {
                            assert(last_binding(s, km, n));
                            assert(s[km].ty@ is Unknown);
                        }
                    }
                    if unknown_from(s, km, n) {
                        let m = choose|m: int| km <= m < s.len() && #[trigger] last_binding(s, m, n) && s[m].ty@ is Unknown;
                        if m == km {
                            assert(!shadowed);
                            assert(unknown);
                            assert(names@[before.len() as int]@ == n);
                        } else {
                            assert(unknown_from(s, k as int, n));
                            assert(has_name(before, n));
                            let i = choose|i: int| 0 <= i < before.len() && (#[trigger] before[i])@ == n;
                            assert(names@[i]@ == n);
                        }
                    }
                }
            }
            k = k - 1;
        }
        proof {
            assert forall|n: Seq<char>|
                #[trigger] has_name(names@, n) <==> (self.scopes_view().last().contains_key(n)
                    && self.scopes_view().last()[n].ty is Unknown) by {
                assert(self.scopes_view().last() == scope_map(s));
                if unknown_from(s, 0, n) {
                    let m = choose|m: int| 0 <= m < s.len() && #[trigger] last_binding(s, m, n) && s[m].ty@ is Unknown;
                    lemma_scope_map_last(s, n, m);
                }
                if scope_map(s).contains_key(n) && scope_map(s)[n].ty is Unknown {
                    let m = Self::last_index_of(s, n);
                    lemma_scope_map_last(s, n, m);
                    assert(last_binding(s, m, n));
                }
            }
        }
        names
    }

    /// Where `n` is last bound in a scope that binds it.
    proof fn last_index_of(s: Seq<VarSymbol>, n: Seq<char>) -> (m: int)
        requires
            scope_map(s).contains_key(n),
        ensures
            0 <= m < s.len(),
            s[m].name@ == n,
            forall|q: int| m < q < s.len() ==> (#[trigger] s[q]).name@ != n,
        decreases s.len(),
    {
        if s.last().name@ == n {
            (s.len() - 1) as int
        } else {
            let m = Self::last_index_of(s.drop_last(), n);
            assert forall|q: int| m < q < s.len() implies (#[trigger] s[q]).name@ != n by {
                if q < s.len() - 1 {
                    assert(s.drop_last()[q] == s[q]);
                }
            }
            m
        }
    }

    /// Whether `name` is bound again after position `k - 1` of the scope.
    fn find_later(scope: &Vec<VarSymbol>, k: usize, name: &str) -> (r: bool)
        requires
            k <= scope@.len(),
        ensures
            r == exists|q: int| k <= q < scope@.len() && (#[trigger] scope@[q]).name@ == name@,
    {
        let mut q: usize = k;
        while q < scope.len()
            invariant
                k <= q <= scope@.len(),
                forall|p: int| k <= p < q ==> (#[trigger] scope@[p]).name@ != name@,
            decreases scope@.len() - q,
        {
            if str_eq(scope[q].name.as_str(), name) {
                return true;
            }
            q = q + 1;
        }
        false
    }
}

/// Opening an empty innermost scope changes no lookup.
proof fn lemma_lookup_push_empty(scopes: Seq<Map<Seq<char>, SymInfo>>, n: Seq<char>)
    ensures
        lookup_in(scopes.push(Map::empty()), n) == lookup_in(scopes, n),
{
    assert(scopes.push(Map::empty()).drop_last() =~= scopes);
}

/// Declaring a variable makes a lookup of its name find it, and leaves the
/// lookup of every other name as it was.
pub proof fn law_declare_then_lookup(before: SymbolTable, after: SymbolTable, sym: VarSymbol, n: Seq<char>)
    requires
        before.wf(),
        after.scopes_view() == before.scopes_view().update(
            before.depth() - 1,
            before.scopes_view().last().insert(sym.name@, sym.info()),
        ),
    ensures
        after.lookup_spec(sym.name@) == Some(sym.info()),
        n != sym.name@ ==> after.lookup_spec(n) == before.lookup_spec(n),
{
    let b = before.scopes_view();
    let a = after.scopes_view();
    assert(a.drop_last() =~= b.drop_last());
    assert(a.last() == b.last().insert(sym.name@, sym.info()));
}

/// Opening a scope changes no lookup, and closing it again gives back the
/// scopes exactly as they were.
pub proof fn law_push_then_pop(before: SymbolTable, pushed: SymbolTable, popped: SymbolTable, n: Seq<char>)
    requires
        before.wf(),
        pushed.scopes_view() == before.scopes_view().push(Map::empty()),
        pushed.depth() > 1 ==> popped.scopes_view() == pushed.scopes_view().drop_last(),
    ensures
        pushed.lookup_spec(n) == before.lookup_spec(n),
        popped.scopes_view() == before.scopes_view(),
        popped.lookup_spec(n) == before.lookup_spec(n),
{
    lemma_lookup_push_empty(before.scopes_view(), n);
    assert(before.scopes_view().push(Map::empty()).drop_last() =~= before.scopes_view());
}

/// A variable declared in a new inner scope shadows any outer binding of its
/// name; once that scope is closed, every lookup is as it was before the
/// scope was opened.
pub proof fn law_shadowing_is_scoped(
    before: SymbolTable,
    pushed: SymbolTable,
    declared: SymbolTable,
    popped: SymbolTable,
    sym: VarSymbol,
    n: Seq<char>,
)
    requires
        before.wf(),
        pushed.scopes_view() == before.scopes_view().push(Map::empty()),
        declared.scopes_view() == pushed.scopes_view().update(
            pushed.depth() - 1,
            pushed.scopes_view().last().insert(sym.name@, sym.info()),
        ),
        declared.depth() > 1 ==> popped.scopes_view() == declared.scopes_view().drop_last(),
    ensures
        declared.lookup_spec(sym.name@) == Some(sym.info()),
        popped.lookup_spec(n) == before.lookup_spec(n),
{
    law_declare_then_lookup(pushed, declared, sym, sym.name@);
    assert(declared.scopes_view().drop_last() =~= before.scopes_view());
}

/// Registering a function makes a lookup of its name find that signature.
pub proof fn law_declare_function_then_lookup(before: SymbolTable, after: SymbolTable, sig: FunctionSig)
    requires
        after.functions_view() == before.functions_view().insert(sig.name@, sig.info()),
    ensures
        after.functions_view().contains_key(sig.name@),
        after.functions_view()[sig.name@] == sig.info(),
{
}

} // verus!
