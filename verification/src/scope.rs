//! What name resolution found, and what follows for navigation and diagnostics.
use std::collections::{HashMap, HashSet};
use vstd::prelude::*;
use vstd::string::*;
use crate::diagnostics::{add_diag, diag_json, diag_list, make_diag, DiagModel};
use crate::json::{items_of, json_of, Value};
use crate::sort::{Placed, ReadPlace};
use crate::syntax::{ast_loc, loc_of, Loc, Span};

verus! {

/// A node of the desugared tree, by itself: where it stands and, if it is an identifier,
/// its name.
#[derive(Debug)]
pub struct FlatNode {
    pub loc: Span,
    pub name: Option<String>,
}

/// What introduces a binding: a node of the desugared tree, or the language itself.
#[derive(Clone, Copy, Debug)]
pub enum BindOrigin {
    Ast(u32),
    Builtin,
}

/// A binding: where it comes from and the scope it belongs to.
#[derive(Clone, Copy, Debug)]
pub struct BindInfo {
    pub origin: BindOrigin,
    pub scope: u32,
}

/// The kinds of scopes that are told apart.
#[derive(Clone, Copy, Debug)]
pub enum ScopeKind {
    Module,
    /// An arm, whose bindings come from patterns.
    Arm,
    Other,
}

/// The kinds of references that are told apart.
#[derive(Clone, Copy, Debug)]
pub enum RefKind {
    Unresolved,
    Other,
}

/// A reference to a name.
#[derive(Clone, Copy, Debug)]
pub struct RefInfo {
    pub kind: RefKind,
    pub ast_id: u32,
}

/// What happens in a scope.
#[derive(Clone, Copy, Debug)]
pub enum ScopeEvent {
    Ref(RefInfo),
    Other,
}

/// A desugared tree with resolved names. Nodes, bindings and scopes are known by their
/// position in their lists; the scope of the module is the first one.
#[derive(Debug)]
pub struct Desugared {
    /// The nodes; a position may be empty.
    pub nodes: Vec<Option<FlatNode>>,
    /// For each node the binding it refers to, as far as the list goes.
    pub resolution: Vec<Option<u32>>,
    pub binds: Vec<BindInfo>,
    pub scopes: Vec<ScopeKind>,
    /// For each scope what happens in it, as far as the list goes.
    pub scope_events: Vec<Vec<ScopeEvent>>,
}

/// The scope of the module.
pub const MODULE_SCOPE: u32 = 0;

/// An identifier of the source, for finding what stands under a cursor.
#[derive(Debug)]
pub struct IdentEntry {
    pub loc: Loc,
    pub name: String,
    /// The binding that the identifier refers to or, failing that, introduces.
    pub bind_id: Option<u32>,
    /// Whether the identifier introduces a binding.
    pub is_binding_site: bool,
    /// Whether the identifier introduces a binding of the module's scope.
    pub is_module_level: bool,
}

/// An identifier of the source, over character sequences.
pub struct IdentModel {
    pub loc: Loc,
    pub name: Seq<char>,
    pub bind_id: Option<u32>,
    pub is_binding_site: bool,
    pub is_module_level: bool,
}

impl View for IdentEntry {
    type V = IdentModel;

    open spec fn view(&self) -> IdentModel {
        IdentModel {
            loc: self.loc,
            name: self.name@,
            bind_id: self.bind_id,
            is_binding_site: self.is_binding_site,
            is_module_level: self.is_module_level,
        }
    }
}

impl Placed for IdentEntry {
    open spec fn place(self) -> (int, int) {
        (self.loc.line as int, self.loc.col as int)
    }
}

impl ReadPlace for IdentEntry {
    fn read_place(&self) -> (p: (u32, u32)) {
        (self.loc.line, self.loc.col)
    }
}

impl Placed for IdentModel {
    open spec fn place(self) -> (int, int) {
        (self.loc.line as int, self.loc.col as int)
    }
}

/// The models behind a list of identifiers.
pub open spec fn ident_views(v: Seq<IdentEntry>) -> Seq<IdentModel> {
    v.map_values(|e: IdentEntry| e@)
}

/// The contents of a list of location lists.
pub open spec fn loc_lists(v: Seq<Vec<Loc>>) -> Seq<Seq<Loc>> {
    Seq::new(v.len(), |i: int| v[i]@)
}

impl Desugared {
    /// The node with number `id`, if there is one.
    pub open spec fn node_at(self, id: int) -> Option<FlatNode> {
        if 0 <= id < self.nodes@.len() {
            self.nodes@[id]
        } else {
            None
        }
    }

    /// The name of node `id`, if it is an identifier.
    pub open spec fn name_at(self, id: int) -> Option<Seq<char>> {
        match self.node_at(id) {
            Some(node) => match node.name {
                Some(name) => Some(name@),
                None => None,
            },
            None => None,
        }
    }

    /// The location of node `id`.
    pub open spec fn loc_at(self, id: int) -> Loc {
        loc_of(self.node_at(id)->0.loc)
    }

    /// The binding that node `id` refers to, if it refers to one.
    pub open spec fn resolved(self, id: int) -> Option<u32> {
        if 0 <= id < self.resolution@.len() {
            self.resolution@[id]
        } else {
            None
        }
    }

    /// The location of the node that introduces binding `b`; builtins have none.
    pub open spec fn bind_loc(self, b: int) -> Option<Loc> {
        match self.binds@[b].origin {
            BindOrigin::Ast(id) => match self.node_at(id as int) {
                Some(node) => Some(loc_of(node.loc)),
                None => None,
            },
            BindOrigin::Builtin => None,
        }
    }

    /// The locations of all bindings.
    pub open spec fn bind_locs(self) -> Seq<Option<Loc>> {
        Seq::new(self.binds@.len(), |b: int| self.bind_loc(b))
    }

    /// Whether node `id` is an identifier that refers to binding `b`.
    pub open spec fn refers(self, id: int, b: u32) -> bool {
        self.name_at(id) is Some && self.resolved(id) == Some(b)
    }

    /// The locations of the identifiers among the first `n` nodes that refer to binding `b`.
    pub open spec fn refs_to(self, b: u32, n: int) -> Seq<Loc>
        decreases n,
    {
        if n <= 0 {
            Seq::empty()
        } else if self.refers(n - 1, b) {
            self.refs_to(b, n - 1).push(self.loc_at(n - 1))
        } else {
            self.refs_to(b, n - 1)
        }
    }

    /// For each binding the locations of the identifiers that refer to it.
    pub open spec fn bind_refs(self, n: int) -> Seq<Seq<Loc>> {
        Seq::new(self.binds@.len(), |b: int| self.refs_to(b as u32, n))
    }

    /// Whether an identifier refers to binding `b`.
    pub open spec fn used(self, b: u32, n: int) -> bool {
        exists|id: int| 0 <= id < n && #[trigger] self.refers(id, b)
    }

    /// What is known of the identifier with number `id`.
    pub open spec fn ident_at(self, id: int) -> IdentModel {
        let site = last_bind(self.binds@, id as u32);
        IdentModel {
            loc: self.loc_at(id),
            name: self.name_at(id)->0,
            bind_id: match self.resolved(id) {
                Some(b) => Some(b),
                None => site,
            },
            is_binding_site: site is Some,
            is_module_level: exports(self.binds@, id as u32),
        }
    }

    /// The identifiers among the first `n` nodes.
    pub open spec fn idents(self, n: int) -> Seq<IdentModel>
        decreases n,
    {
        if n <= 0 {
            Seq::empty()
        } else if self.name_at(n - 1) is Some {
            self.idents(n - 1).push(self.ident_at(n - 1))
        } else {
            self.idents(n - 1)
        }
    }

    /// The diagnostic for an event, if it is a reference that resolves to nothing.
    pub open spec fn event_diag(self, event: ScopeEvent) -> Option<DiagModel> {
        match event {
            ScopeEvent::Ref(r) => if r.kind is Unresolved && self.node_at(r.ast_id as int) is Some {
                let name = match self.name_at(r.ast_id as int) {
                    Some(name) => name,
                    None => "?"@,
                };
                Some(
                    DiagModel {
                        loc: self.loc_at(r.ast_id as int),
                        message: "unresolved name '"@ + name + "'"@,
                        source: "name_res"@,
                        severity: "error"@,
                    },
                )
            } else {
                None
            },
            ScopeEvent::Other => None,
        }
    }

    /// The diagnostics for the events of a scope.
    pub open spec fn event_diags(self, events: Seq<ScopeEvent>) -> Seq<DiagModel>
        decreases events.len(),
    {
        if events.len() == 0 {
            Seq::empty()
        } else {
            match self.event_diag(events.last()) {
                Some(d) => self.event_diags(events.drop_last()).push(d),
                None => self.event_diags(events.drop_last()),
            }
        }
    }

    /// The diagnostics for unresolved names in the first `n` scopes.
    pub open spec fn unresolved_diags(self, n: int) -> Seq<DiagModel>
        decreases n,
    {
        if n <= 0 {
            Seq::empty()
        } else if n - 1 < self.scope_events@.len() {
            self.unresolved_diags(n - 1) + self.event_diags(self.scope_events@[n - 1]@)
        } else {
            self.unresolved_diags(n - 1)
        }
    }

    /// Whether binding `b` is one that must be used: it is introduced in the source, and not
    /// in the module's scope, whose bindings are exports.
    pub open spec fn must_be_used(self, b: int) -> bool {
        self.binds@[b].origin is Ast && self.binds@[b].scope != MODULE_SCOPE
    }

    /// The diagnostic for binding `b`, if it should be used and is not. Only bindings of
    /// identifiers that stand in the source are reported, and those of patterns are not.
    pub open spec fn unused_diag(self, b: int) -> Option<DiagModel> {
        let bind = self.binds@[b];
        if !self.used(b as u32, self.nodes@.len() as int) && self.must_be_used(b)
            && !(self.scopes@[bind.scope as int] is Module)
            && !(self.scopes@[bind.scope as int] is Arm) {
            match self.name_at(bind.origin->0 as int) {
                Some(name) => Some(
                    DiagModel {
                        loc: self.loc_at(bind.origin->0 as int),
                        message: "unused binding '"@ + name + "'"@,
                        source: "name_res"@,
                        severity: "warning"@,
                    },
                ),
                None => None,
            }
        } else {
            None
        }
    }

    /// The diagnostics for unused bindings among the first `n` bindings.
    pub open spec fn unused_diags(self, n: int) -> Seq<DiagModel>
        decreases n,
    {
        if n <= 0 {
            Seq::empty()
        } else {
            match self.unused_diag(n - 1) {
                Some(d) => self.unused_diags(n - 1).push(d),
                None => self.unused_diags(n - 1),
            }
        }
    }

    /// Whether the parts fit together: identifiers refer to bindings that exist, a binding
    /// that is looked at for being unused has a scope that exists, and 32 bits can number
    /// everything.
    pub open spec fn fits(self) -> bool {
        &&& self.nodes@.len() <= u32::MAX
        &&& self.binds@.len() <= u32::MAX
        &&& self.scopes@.len() <= u32::MAX
        &&& forall|id: int, b: u32|
            0 <= id < self.nodes@.len() && #[trigger] self.refers(id, b) ==> b < self.binds@.len()
        &&& forall|b: int|
            0 <= b < self.binds@.len() && #[trigger] self.must_be_used(b) && !self.used(
                b as u32,
                self.nodes@.len() as int,
            ) ==> self.binds@[b].scope < self.scopes@.len()
    }
}

/// The last of the bindings that node `id` introduces.
pub open spec fn last_bind(binds: Seq<BindInfo>, id: u32) -> Option<u32>
    decreases binds.len(),
{
    if binds.len() == 0 {
        None
    } else if binds.last().origin == BindOrigin::Ast(id) {
        Some((binds.len() - 1) as u32)
    } else {
        last_bind(binds.drop_last(), id)
    }
}

/// Whether node `id` introduces a binding of the module's scope.
pub open spec fn exports(binds: Seq<BindInfo>, id: u32) -> bool {
    exists|b: int|
        0 <= b < binds.len() && (#[trigger] binds[b]).origin == BindOrigin::Ast(id)
            && binds[b].scope == MODULE_SCOPE
}

/// Whether `index` holds, for each node, the last of the bindings that it introduces.
pub open spec fn indexes(index: Map<u32, u32>, binds: Seq<BindInfo>) -> bool {
    forall|id: u32| #[trigger]
        last_bind(binds, id) == (if index.dom().contains(id) {
            Some(index[id])
        } else {
            None
        })
}

/// What a walk over the nodes finds.
struct Walk {
    bind_refs: Vec<Vec<Loc>>,
    idents: Vec<IdentEntry>,
    used: HashSet<u32>,
}

/// What the editor asks of a desugared tree.
#[derive(Debug)]
pub struct Analysis {
    pub bind_locs: Vec<Option<Loc>>,
    pub bind_refs: Vec<Vec<Loc>>,
    /// The identifiers, in the order of the nodes.
    pub idents: Vec<IdentEntry>,
    /// Unresolved names, then unused bindings.
    pub diags: Vec<Value>,
}

/// Whether `a` is what `d` says.
pub open spec fn analysis_of(a: Analysis, d: Desugared) -> bool {
    let n = d.nodes@.len() as int;
    &&& a.bind_locs@ == d.bind_locs()
    &&& loc_lists(a.bind_refs@) == d.bind_refs(n)
    &&& ident_views(a.idents@) == d.idents(n)
    &&& items_of(a.diags@) == diag_list(
        d.unresolved_diags(d.scopes@.len() as int) + d.unused_diags(d.binds@.len() as int),
    )
}

impl Desugared {
    fn find_node(&self, id: u32) -> (node: Option<&FlatNode>)
        ensures
            match node {
                Some(n) => self.node_at(id as int) == Some(*n),
                None => self.node_at(id as int) is None,
            },
    {
        if (id as usize) < self.nodes.len() {
            self.nodes[id as usize].as_ref()
        } else {
            None
        }
    }

    fn find_resolved(&self, id: usize) -> (b: Option<u32>)
        ensures
            b == self.resolved(id as int),
    {
        if id < self.resolution.len() {
            self.resolution[id]
        } else {
            None
        }
    }

    fn find_bind_locs(&self) -> (locs: Vec<Option<Loc>>)
        ensures
            locs@ == self.bind_locs(),
    {
        let mut locs: Vec<Option<Loc>> = Vec::new();
        for b in 0..self.binds.len()
            invariant
                locs@ == self.bind_locs().take(b as int),
        {
            let loc = match self.binds[b].origin {
                BindOrigin::Ast(id) => match self.find_node(id) {
                    Some(node) => Some(ast_loc(&node.loc)),
                    None => None,
                },
                BindOrigin::Builtin => None,
            };
            locs.push(loc);
            assert(locs@ =~= self.bind_locs().take(b + 1));
        }
        assert(locs@ =~= self.bind_locs());
        locs
    }

    fn index_binds(&self) -> (index: HashMap<u32, u32>)
        requires
            self.binds@.len() <= u32::MAX,
        ensures
            indexes(index@, self.binds@),
    {
        broadcast use vstd::std_specs::hash::group_hash_axioms;

        let mut index: HashMap<u32, u32> = HashMap::new();
        for b in 0..self.binds.len()
            invariant
                self.binds@.len() <= u32::MAX,
                indexes(index@, self.binds@.take(b as int)),
        {
            broadcast use vstd::std_specs::hash::group_hash_axioms;

            let ghost before = self.binds@.take(b as int);
            let ghost upto = self.binds@.take(b + 1);
            let ghost was = index@;
            proof {
                assert(upto.drop_last() =~= before);
            }
            if let BindOrigin::Ast(id) = self.binds[b].origin {
                index.insert(id, b as u32);
            }
            proof {
                assert forall|id: u32| #[trigger]
                    last_bind(upto, id) == (if index@.dom().contains(id) {
                        Some(index@[id])
                    } else {
                        None
                    }) by {
                    let _ = last_bind(before, id);
                }
            }
        }
        assert(self.binds@.take(self.binds.len() as int) =~= self.binds@);
        index
    }

    fn index_exports(&self) -> (exported: HashSet<u32>)
        ensures
            forall|id: u32| #[trigger] exported@.contains(id) == exports(self.binds@, id),
    {
        broadcast use vstd::std_specs::hash::group_hash_axioms;

        let mut exported: HashSet<u32> = HashSet::new();
        for b in 0..self.binds.len()
            invariant
                forall|id: u32| #[trigger]
                    exported@.contains(id) == exports(self.binds@.take(b as int), id),
        {
            broadcast use vstd::std_specs::hash::group_hash_axioms;

            let ghost before = self.binds@.take(b as int);
            let ghost upto = self.binds@.take(b + 1);
            let bind = self.binds[b];
            if let BindOrigin::Ast(id) = bind.origin {
                if bind.scope == MODULE_SCOPE {
                    exported.insert(id);
                }
            }
            proof {
                assert forall|id: u32| #[trigger] exported@.contains(id) == exports(upto, id) by {
                    if exports(before, id) {
                        let k = choose|k: int|
                            0 <= k < before.len() && (#[trigger] before[k]).origin
                                == BindOrigin::Ast(id) && before[k].scope == MODULE_SCOPE;
                        assert(upto[k] == before[k]);
                    }
                    if exports(upto, id) {
                        let k = choose|k: int|
                            0 <= k < upto.len() && (#[trigger] upto[k]).origin == BindOrigin::Ast(
                                id,
                            ) && upto[k].scope == MODULE_SCOPE;
                        if k < b {
                            assert(before[k] == upto[k]);
                        }
                    }
                    assert(upto[b as int] == bind);
                }
            }
        }
        assert(self.binds@.take(self.binds.len() as int) =~= self.binds@);
        exported
    }

    /// Whether the identifiers among the first `n` nodes refer to bindings that exist.
    spec fn refs_fit(self, n: int) -> bool {
        forall|id: int, b: u32|
            0 <= id < n && #[trigger] self.refers(id, b) ==> b < self.binds@.len()
    }

    /// Whether `w` is what the first `n` nodes give.
    spec fn walked(self, w: Walk, n: int) -> bool {
        &&& loc_lists(w.bind_refs@) == self.bind_refs(n)
        &&& ident_views(w.idents@) == self.idents(n)
        &&& forall|b: u32| #[trigger] w.used@.contains(b) == self.used(b, n)
    }

    fn start_walk(&self) -> (w: Walk)
        ensures
            self.walked(w, 0),
    {
        broadcast use vstd::std_specs::hash::group_hash_axioms;

        let mut bind_refs: Vec<Vec<Loc>> = Vec::new();
        for b in 0..self.binds.len()
            invariant
                bind_refs@.len() == b,
                forall|k: int| 0 <= k < b ==> (#[trigger] bind_refs@[k])@.len() == 0,
        {
            bind_refs.push(Vec::new());
        }
        let idents: Vec<IdentEntry> = Vec::new();
        let w = Walk { bind_refs, idents, used: HashSet::new() };
        assert(loc_lists(w.bind_refs@) =~= self.bind_refs(0)) by {
            assert forall|k: int| 0 <= k < self.binds@.len() implies #[trigger] loc_lists(
                w.bind_refs@,
            )[k] == self.bind_refs(0)[k] by {
                assert(w.bind_refs@[k]@ =~= Seq::<Loc>::empty());
            }
        }
        assert(ident_views(w.idents@) =~= self.idents(0));
        w
    }

    proof fn lemma_used_step(self, b: u32, n: int)
        requires
            0 <= n,
        ensures
            self.used(b, n + 1) == (self.used(b, n) || self.refers(n, b)),
    {
        if self.used(b, n) {
            let id = choose|id: int| 0 <= id < n && #[trigger] self.refers(id, b);
            assert(0 <= id < n + 1 && self.refers(id, b));
        }
        if self.refers(n, b) {
            assert(0 <= n < n + 1 && self.refers(n, b));
        }
    }

    fn record_ref(&self, w: &mut Walk, id: usize, b: u32, loc: Loc)
        requires
            id < self.nodes@.len(),
            self.binds@.len() <= u32::MAX,
            self.walked(*old(w), id as int),
            self.refers(id as int, b),
            b < self.binds@.len(),
            loc == self.loc_at(id as int),
        ensures
            loc_lists(final(w).bind_refs@) == self.bind_refs(id + 1),
            final(w).idents == old(w).idents,
            forall|c: u32| #[trigger] final(w).used@.contains(c) == self.used(c, id + 1),
    {
        broadcast use vstd::std_specs::hash::group_hash_axioms;

        let ghost was = w.bind_refs@;
        assert(loc_lists(was).len() == self.binds@.len());
        assert(loc_lists(was)[b as int] == self.bind_refs(id as int)[b as int]);
        w.used.insert(b);
        w.bind_refs[b as usize].push(loc);
        proof {
            assert forall|k: int| 0 <= k < self.binds@.len() implies #[trigger] loc_lists(
                w.bind_refs@,
            )[k] == self.bind_refs(id + 1)[k] by {
                assert(loc_lists(was)[k] == self.bind_refs(id as int)[k]);
                if k != b as int {
                    assert(w.bind_refs@[k] == was[k]);
                    assert(k as u32 != b);
                }
            }
            assert(loc_lists(w.bind_refs@) =~= self.bind_refs(id + 1));
            assert forall|c: u32| #[trigger] w.used@.contains(c) == self.used(c, id + 1) by {
                self.lemma_used_step(c, id as int);
            }
        }
    }

    /// Nothing changes for the bindings where node `n` refers to none.
    proof fn lemma_no_ref(self, n: int)
        requires
            0 <= n,
            forall|b: u32| !#[trigger] self.refers(n, b),
        ensures
            self.bind_refs(n + 1) == self.bind_refs(n),
            forall|b: u32| #[trigger] self.used(b, n + 1) == self.used(b, n),
            self.refs_fit(n) ==> self.refs_fit(n + 1),
    {
        assert(self.bind_refs(n + 1) =~= self.bind_refs(n));
        assert forall|b: u32| #[trigger] self.used(b, n + 1) == self.used(b, n) by {
            self.lemma_used_step(b, n);
        }
    }

    fn try_walk(&self) -> (walk: Option<Walk>)
        requires
            self.binds@.len() <= u32::MAX,
            self.nodes@.len() <= u32::MAX,
        ensures
            walk is Some <==> self.refs_fit(self.nodes@.len() as int),
            walk matches Some(w) ==> self.walked(w, self.nodes@.len() as int),
    {
        let index = self.index_binds();
        let exported = self.index_exports();
        let mut w = self.start_walk();
        for i in 0..self.nodes.len()
            invariant
                self.binds@.len() <= u32::MAX,
                self.nodes@.len() <= u32::MAX,
                indexes(index@, self.binds@),
                forall|id: u32| #[trigger] exported@.contains(id) == exports(self.binds@, id),
                self.walked(w, i as int),
                self.refs_fit(i as int),
        {
            broadcast use vstd::std_specs::hash::group_hash_axioms;

            let id = i as u32;
            let named = match &self.nodes[i] {
                Some(node) => match &node.name {
                    Some(name) => Some((ast_loc(&node.loc), name)),
                    None => None,
                },
                None => None,
            };
            match named {
                None => {
                    proof {
                        self.lemma_no_ref(i as int);
                    }
                },
                Some((loc, name)) => {
                    let resolved = self.find_resolved(i);
                    match resolved {
                        Some(b) => {
                            assert(self.refers(i as int, b));
                            if b as usize >= self.binds.len() {
                                return None;
                            }
                            self.record_ref(&mut w, i, b, loc);
                        },
                        None => {
                            proof {
                                self.lemma_no_ref(i as int);
                            }
                        },
                    }
                    let site = match index.get(&id) {
                        Some(b) => Some(*b),
                        None => None,
                    };
                    assert(site == last_bind(self.binds@, id));
                    let is_module_level = exported.contains(&id);
                    let bind_id = match resolved {
                        Some(b) => Some(b),
                        None => site,
                    };
                    let entry = IdentEntry {
                        loc,
                        name: name.clone(),
                        bind_id,
                        is_binding_site: site.is_some(),
                        is_module_level,
                    };
                    let ghost was = w.idents@;
                    w.idents.push(entry);
                    assert(ident_views(w.idents@) =~= ident_views(was).push(entry@));
                    assert(entry@ == self.ident_at(i as int));
                },
            }
        }
        Some(w)
    }
}

impl Desugared {
    fn make_event_diag(&self, event: &ScopeEvent) -> (diag: Option<Value>)
        ensures
            match diag {
                Some(d) => self.event_diag(*event) is Some && json_of(d) == diag_json(
                    self.event_diag(*event)->0,
                ),
                None => self.event_diag(*event) is None,
            },
    {
        let r = match event {
            ScopeEvent::Ref(r) => r,
            ScopeEvent::Other => return None,
        };
        match r.kind {
            RefKind::Unresolved => {},
            RefKind::Other => return None,
        }
        match self.find_node(r.ast_id) {
            Some(node) => {
                let name = match &node.name {
                    Some(name) => name.as_str(),
                    None => "?",
                };
                let mut message = "unresolved name '".to_owned();
                message.append(name);
                message.append("'");
                Some(make_diag(&ast_loc(&node.loc), message.as_str(), "name_res", "error"))
            },
            None => None,
        }
    }

    fn make_unresolved_diags(&self) -> (diags: Vec<Value>)
        ensures
            items_of(diags@) == diag_list(self.unresolved_diags(self.scopes@.len() as int)),
    {
        let mut diags: Vec<Value> = Vec::new();
        assert(items_of(diags@) =~= diag_list(self.unresolved_diags(0)));
        for i in 0..self.scopes.len()
            invariant
                items_of(diags@) == diag_list(self.unresolved_diags(i as int)),
        {
            if i < self.scope_events.len() {
                let events = &self.scope_events[i];
                let ghost earlier = self.unresolved_diags(i as int);
                assert(earlier + self.event_diags(events@.take(0)) =~= earlier);
                for j in 0..events.len()
                    invariant
                        items_of(diags@) == diag_list(
                            earlier + self.event_diags(events@.take(j as int)),
                        ),
                {
                    let ghost was = earlier + self.event_diags(events@.take(j as int));
                    let ghost upto = events@.take(j + 1);
                    proof {
                        assert(upto.drop_last() =~= events@.take(j as int));
                    }
                    if let Some(diag) = self.make_event_diag(&events[j]) {
                        let ghost d = self.event_diag(events@[j as int])->0;
                        add_diag(&mut diags, diag, Ghost(was), Ghost(d));
                        assert(earlier + self.event_diags(upto) =~= was.push(d));
                    }
                }
                assert(events@.take(events.len() as int) =~= events@);
            }
        }
        diags
    }

    /// Whether the scope that binding `b` is looked up in exists, if it is looked up.
    spec fn scope_fits(self, b: int) -> bool {
        self.must_be_used(b) && !self.used(b as u32, self.nodes@.len() as int)
            ==> self.binds@[b].scope < self.scopes@.len()
    }

    fn try_make_unused_diag(&self, used: &HashSet<u32>, b: u32) -> (diag: Option<Option<Value>>)
        requires
            b < self.binds@.len(),
            used@.contains(b) == self.used(b, self.nodes@.len() as int),
        ensures
            diag is Some <==> self.scope_fits(b as int),
            diag matches Some(d) ==> match d {
                Some(d) => self.unused_diag(b as int) is Some && json_of(d) == diag_json(
                    self.unused_diag(b as int)->0,
                ),
                None => self.unused_diag(b as int) is None,
            },
    {
        broadcast use vstd::std_specs::hash::group_hash_axioms;

        if used.contains(&b) {
            return Some(None);
        }
        let bind = self.binds[b as usize];
        let id = match bind.origin {
            BindOrigin::Ast(id) => id,
            BindOrigin::Builtin => return Some(None),
        };
        assert(bind.origin->0 == id);
        if bind.scope == MODULE_SCOPE {
            return Some(None);
        }
        assert(self.must_be_used(b as int));
        if bind.scope as usize >= self.scopes.len() {
            return None;
        }
        match self.scopes[bind.scope as usize] {
            ScopeKind::Module => return Some(None),
            ScopeKind::Arm => return Some(None),
            ScopeKind::Other => {},
        }
        if let Some(node) = self.find_node(id) {
            if let Some(name) = &node.name {
                let mut message = "unused binding '".to_owned();
                message.append(name.as_str());
                message.append("'");
                return Some(
                    Some(make_diag(&ast_loc(&node.loc), message.as_str(), "name_res", "warning")),
                );
            }
        }
        Some(None)
    }

    fn try_add_unused_diags(
        &self,
        used: &HashSet<u32>,
        diags: &mut Vec<Value>,
        Ghost(first): Ghost<Seq<DiagModel>>,
    ) -> (ok: bool)
        requires
            items_of(old(diags)@) == diag_list(first),
            self.binds@.len() <= u32::MAX,
            forall|b: u32| #[trigger]
                used@.contains(b) == self.used(b, self.nodes@.len() as int),
        ensures
            ok == (forall|b: int| 0 <= b < self.binds@.len() ==> #[trigger] self.scope_fits(b)),
            ok ==> items_of(final(diags)@) == diag_list(
                first + self.unused_diags(self.binds@.len() as int),
            ),
    {
        assert(first + self.unused_diags(0) =~= first);
        for b in 0..self.binds.len()
            invariant
                self.binds@.len() <= u32::MAX,
                forall|c: u32| #[trigger]
                    used@.contains(c) == self.used(c, self.nodes@.len() as int),
                forall|k: int| 0 <= k < b ==> #[trigger] self.scope_fits(k),
                items_of(diags@) == diag_list(first + self.unused_diags(b as int)),
        {
            let ghost was = first + self.unused_diags(b as int);
            match self.try_make_unused_diag(used, b as u32) {
                Some(Some(diag)) => {
                    let ghost d = self.unused_diag(b as int)->0;
                    add_diag(diags, diag, Ghost(was), Ghost(d));
                    assert(first + self.unused_diags(b + 1) =~= was.push(d));
                },
                Some(None) => {},
                None => {
                    assert(!self.scope_fits(b as int));
                    return false;
                },
            }
        }
        true
    }

    /// Works out what the editor asks of the tree, or reports that its parts do not fit
    /// together.
    pub fn try_analyse(&self) -> (analysis: Option<Analysis>)
        ensures
            analysis is Some <==> self.fits(),
            analysis matches Some(a) ==> analysis_of(a, *self),
    {
        if self.nodes.len() > u32::MAX as usize || self.binds.len() > u32::MAX as usize
            || self.scopes.len() > u32::MAX as usize {
            return None;
        }
        let bind_locs = self.find_bind_locs();
        let walk = match self.try_walk() {
            Some(w) => w,
            None => return None,
        };
        let mut diags = self.make_unresolved_diags();
        let ok = self.try_add_unused_diags(
            &walk.used,
            &mut diags,
            Ghost(self.unresolved_diags(self.scopes@.len() as int)),
        );
        proof {
            if ok {
                assert forall|b: int|
                    0 <= b < self.binds@.len() && #[trigger] self.must_be_used(b) && !self.used(
                        b as u32,
                        self.nodes@.len() as int,
                    ) implies self.binds@[b].scope < self.scopes@.len() by {
                    assert(self.scope_fits(b));
                }
            } else {
                let b = choose|b: int|
                    0 <= b < self.binds@.len() && !#[trigger] self.scope_fits(b);
                assert(self.must_be_used(b));
            }
        }
        if !ok {
            return None;
        }
        Some(Analysis { bind_locs, bind_refs: walk.bind_refs, idents: walk.idents, diags })
    }
}

/// No binding is reported as unused that an identifier refers to, that is an export of the
/// module, that the language brings along, or that a pattern introduces.
pub proof fn used_and_exported_bindings_are_not_reported(d: Desugared, b: int)
    requires
        0 <= b < d.binds@.len(),
        d.used(b as u32, d.nodes@.len() as int) || d.binds@[b].scope == MODULE_SCOPE
            || d.binds@[b].origin is Builtin || d.scopes@[d.binds@[b].scope as int] is Arm,
    ensures
        d.unused_diag(b) is None,
{
}

/// Every warning is about a binding of the source that no identifier refers to, and that is
/// neither an export of the module nor a pattern's.
pub proof fn only_unused_locals_are_reported(d: Desugared, n: int, i: int) -> (b: int)
    requires
        0 <= n <= d.binds@.len(),
        0 <= i < d.unused_diags(n).len(),
    ensures
        0 <= b < n,
        d.unused_diag(b) == Some(d.unused_diags(n)[i]),
        d.must_be_used(b),
        !(d.scopes@[d.binds@[b].scope as int] is Arm),
        !d.used(b as u32, d.nodes@.len() as int),
    decreases n,
{
    if d.unused_diag(n - 1) is Some && i == d.unused_diags(n - 1).len() {
        n - 1
    } else {
        only_unused_locals_are_reported(d, n - 1, i)
    }
}

/// Every identifier that introduces a binding in an inner scope other than an arm, and that
/// no identifier refers to, is warned about.
pub proof fn unused_locals_are_reported(d: Desugared, n: int, b: int) -> (i: int)
    requires
        0 <= b < n <= d.binds@.len(),
        d.must_be_used(b),
        !d.used(b as u32, d.nodes@.len() as int),
        d.scopes@[d.binds@[b].scope as int] is Other,
        d.name_at(d.binds@[b].origin->0 as int) is Some,
    ensures
        0 <= i < d.unused_diags(n).len(),
        d.unused_diag(b) == Some(d.unused_diags(n)[i]),
    decreases n,
{
    if b == n - 1 {
        d.unused_diags(n - 1).len() as int
    } else {
        unused_locals_are_reported(d, n - 1, b)
    }
}

proof fn lemma_event_is_reported(d: Desugared, events: Seq<ScopeEvent>, e: int) -> (i: int)
    requires
        0 <= e < events.len(),
        d.event_diag(events[e]) is Some,
    ensures
        0 <= i < d.event_diags(events).len(),
        d.event_diag(events[e]) == Some(d.event_diags(events)[i]),
    decreases events.len(),
{
    if e == events.len() - 1 {
        d.event_diags(events.drop_last()).len() as int
    } else {
        lemma_event_is_reported(d, events.drop_last(), e)
    }
}

/// Every reference that resolves to nothing is reported, whatever scope it happens in.
pub proof fn unresolved_names_are_reported(d: Desugared, n: int, s: int, e: int, r: RefInfo) -> (i:
    int)
    requires
        0 <= s < n <= d.scopes@.len(),
        s < d.scope_events@.len(),
        0 <= e < d.scope_events@[s]@.len(),
        d.scope_events@[s]@[e] == ScopeEvent::Ref(r),
        r.kind is Unresolved,
        d.node_at(r.ast_id as int) is Some,
    ensures
        0 <= i < d.unresolved_diags(n).len(),
        d.event_diag(ScopeEvent::Ref(r)) == Some(d.unresolved_diags(n)[i]),
    decreases n,
{
    if s == n - 1 {
        let i = lemma_event_is_reported(d, d.scope_events@[s]@, e);
        d.unresolved_diags(n - 1).len() + i
    } else {
        unresolved_names_are_reported(d, n - 1, s, e, r)
    }
}

/// The last binding that a node introduces is one of the bindings, and that node introduces
/// it.
pub(crate) proof fn lemma_last_bind(binds: Seq<BindInfo>, id: u32)
    requires
        binds.len() <= u32::MAX,
    ensures
        last_bind(binds, id) matches Some(b) ==> b < binds.len() && binds[b as int].origin
            == BindOrigin::Ast(id),
    decreases binds.len(),
{
    if binds.len() > 0 {
        lemma_last_bind(binds.drop_last(), id);
    }
}

} // verus!
