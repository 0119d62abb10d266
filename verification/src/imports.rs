//! The import statements of a module.
use vstd::prelude::*;
use vstd::string::*;
use crate::json::{
    add_member, add_number, add_range, add_text, items_of, json_of, json_reads_back, json_text,
    lemma_items_push, range_entries, read_json, write_json, Entry, Json, Member, Value,
};
use crate::syntax::{ast_loc, loc_of, Loc, Node, NodeKind};
use crate::text::same_text;

verus! {

/// An imported name, and where the import statement names it.
#[derive(Debug)]
pub struct ImportedName {
    pub name: String,
    pub loc: Loc,
}

/// An import statement: the URL, where it stands, and the imported names.
#[derive(Debug)]
pub struct ImportInfo {
    pub url: String,
    pub url_loc: Loc,
    pub names: Vec<ImportedName>,
}

/// An imported name, over character sequences.
pub struct NameModel {
    pub name: Seq<char>,
    pub loc: Loc,
}

/// An import statement, over character sequences.
pub struct ImportModel {
    pub url: Seq<char>,
    pub url_loc: Loc,
    pub names: Seq<NameModel>,
}

impl View for ImportedName {
    type V = NameModel;

    open spec fn view(&self) -> NameModel {
        NameModel { name: self.name@, loc: self.loc }
    }
}

impl View for ImportInfo {
    type V = ImportModel;

    open spec fn view(&self) -> ImportModel {
        ImportModel {
            url: self.url@,
            url_loc: self.url_loc,
            names: name_views(self.names@),
        }
    }
}

pub open spec fn name_views(v: Seq<ImportedName>) -> Seq<NameModel> {
    Seq::new(v.len(), |i: int| v[i]@)
}

pub open spec fn import_views(v: Seq<ImportInfo>) -> Seq<ImportModel> {
    Seq::new(v.len(), |i: int| v[i]@)
}

/// The name that an item of a record pattern imports: the bare shorthand is an identifier, or
/// an arm whose pattern is one.
pub open spec fn imported_name(item: Node) -> Option<NameModel> {
    match item.kind {
        NodeKind::Ident(name) => Some(NameModel { name: name@, loc: loc_of(item.loc) }),
        NodeKind::Arm { lhs, body } => match lhs.kind {
            NodeKind::Patterns(pats) => if pats@.len() == 1 {
                match pats@[0].kind {
                    NodeKind::Ident(name) => Some(
                        NameModel { name: name@, loc: loc_of(pats@[0].loc) },
                    ),
                    _ => None,
                }
            } else {
                None
            },
            _ => None,
        },
        _ => None,
    }
}

/// The names that `items` import.
pub open spec fn imported_names(items: Seq<Node>) -> Seq<NameModel>
    decreases items.len(),
{
    if items.len() == 0 {
        Seq::empty()
    } else {
        match imported_name(items.last()) {
            Some(name) => imported_names(items.drop_last()).push(name),
            None => imported_names(items.drop_last()),
        }
    }
}

/// The literal that `rhs` imports: the first argument of a call of `import`.
pub open spec fn import_url(rhs: Node) -> Option<(Seq<char>, Loc)> {
    match rhs.kind {
        NodeKind::Apply { func, args } => match func.kind {
            NodeKind::Ident(f) => if f@ == "import"@ && args@.len() > 0 {
                match args@[0].kind {
                    NodeKind::LitStr { content, indent } => Some(
                        (content@, loc_of(args@[0].loc)),
                    ),
                    _ => None,
                }
            } else {
                None
            },
            _ => None,
        },
        _ => None,
    }
}

/// The import that `expr` is: `{a, b} = import 'url'` with at least one name.
pub open spec fn import_of(expr: Node) -> Option<ImportModel> {
    match expr.kind {
        NodeKind::Bind { lhs, rhs } => match (import_url(*rhs), lhs.kind) {
            (Some(url), NodeKind::LitRec { items }) => {
                let names = imported_names(items@);
                if names.len() > 0 {
                    Some(ImportModel { url: url.0, url_loc: url.1, names })
                } else {
                    None
                }
            },
            _ => None,
        },
        _ => None,
    }
}

/// The imports among the expressions of a module.
pub open spec fn imports_among(exprs: Seq<Node>) -> Seq<ImportModel>
    decreases exprs.len(),
{
    if exprs.len() == 0 {
        Seq::empty()
    } else {
        match import_of(exprs.last()) {
            Some(i) => imports_among(exprs.drop_last()).push(i),
            None => imports_among(exprs.drop_last()),
        }
    }
}

/// The imports of the tree under `root`; only a module has any.
pub open spec fn imports_of(root: Node) -> Seq<ImportModel> {
    match root.kind {
        NodeKind::Module { exprs } => imports_among(exprs@),
        _ => Seq::empty(),
    }
}

fn find_imported_name(item: &Node) -> (found: Option<ImportedName>)
    ensures
        match found {
            Some(n) => imported_name(*item) == Some(n@),
            None => imported_name(*item) is None,
        },
{
    match &item.kind {
        NodeKind::Ident(name) => Some(
            ImportedName { name: name.clone(), loc: ast_loc(&item.loc) },
        ),
        NodeKind::Arm { lhs, body: _ } => {
            if let NodeKind::Patterns(pats) = &lhs.kind {
                if pats.len() == 1 {
                    if let NodeKind::Ident(name) = &pats[0].kind {
                        return Some(
                            ImportedName { name: name.clone(), loc: ast_loc(&pats[0].loc) },
                        );
                    }
                }
            }
            None
        },
        _ => None,
    }
}

fn names_in(items: &Vec<Node>) -> (names: Vec<ImportedName>)
    ensures
        name_views(names@) == imported_names(items@),
{
    let mut names: Vec<ImportedName> = Vec::new();
    assert(name_views(names@) =~= imported_names(items@.take(0)));
    for i in 0..items.len()
        invariant
            name_views(names@) == imported_names(items@.take(i as int)),
    {
        proof {
            assert(items@.take(i + 1).drop_last() =~= items@.take(i as int));
        }
        if let Some(found) = find_imported_name(&items[i]) {
            let ghost was = names@;
            names.push(found);
            assert(name_views(names@) =~= name_views(was).push(found@));
        }
    }
    assert(items@.take(items.len() as int) =~= items@);
    names
}

fn find_import_url(rhs: &Node) -> (url: Option<(&String, Loc)>)
    ensures
        match url {
            Some(u) => import_url(*rhs) == Some((u.0@, u.1)),
            None => import_url(*rhs) is None,
        },
{
    if let NodeKind::Apply { func, args } = &rhs.kind {
        if let NodeKind::Ident(f) = &func.kind {
            if same_text(f.as_str(), "import") && args.len() > 0 {
                if let NodeKind::LitStr { content, indent: _ } = &args[0].kind {
                    return Some((content, ast_loc(&args[0].loc)));
                }
            }
        }
    }
    None
}

fn find_import(expr: &Node) -> (found: Option<ImportInfo>)
    ensures
        match found {
            Some(i) => import_of(*expr) == Some(i@),
            None => import_of(*expr) is None,
        },
{
    if let NodeKind::Bind { lhs, rhs } = &expr.kind {
        if let Some((url, url_loc)) = find_import_url(rhs) {
            if let NodeKind::LitRec { items } = &lhs.kind {
                let names = names_in(items);
                assert(name_views(names@).len() == names@.len());
                if names.len() > 0 {
                    return Some(ImportInfo { url: url.clone(), url_loc, names });
                }
            }
        }
    }
    None
}

/// Gathers the imports of the module `root`.
pub fn extract_imports(root: &Node) -> (imports: Vec<ImportInfo>)
    ensures
        import_views(imports@) == imports_of(*root),
{
    let mut imports: Vec<ImportInfo> = Vec::new();
    let exprs = match &root.kind {
        NodeKind::Module { exprs } => exprs,
        _ => {
            assert(import_views(imports@) =~= imports_of(*root));
            return imports;
        },
    };
    assert(import_views(imports@) =~= imports_among(exprs@.take(0)));
    for i in 0..exprs.len()
        invariant
            import_views(imports@) == imports_among(exprs@.take(i as int)),
    {
        proof {
            assert(exprs@.take(i + 1).drop_last() =~= exprs@.take(i as int));
        }
        if let Some(found) = find_import(&exprs[i]) {
            let ghost was = imports@;
            imports.push(found);
            assert(import_views(imports@) =~= import_views(was).push(found@));
        }
    }
    assert(exprs@.take(exprs.len() as int) =~= exprs@);
    imports
}

/// The JSON object for an imported name.
pub open spec fn name_json(n: NameModel) -> Json {
    Json::Object(
        seq![Entry { key: "name"@, value: Json::Text(n.name) }] + range_entries(
            n.loc.line as int,
            n.loc.col as int,
            n.loc.end_line as int,
            n.loc.end_col as int,
        ),
    )
}

/// The JSON objects for imported names.
pub open spec fn name_list(names: Seq<NameModel>) -> Seq<Json> {
    names.map_values(|n: NameModel| name_json(n))
}

/// The JSON object for an import.
pub open spec fn import_json(i: ImportModel) -> Json {
    Json::Object(
        seq![
            Entry { key: "url"@, value: Json::Text(i.url) },
            Entry { key: "urlLine"@, value: Json::Number(i.url_loc.line as nat) },
            Entry { key: "urlCol"@, value: Json::Number(i.url_loc.col as nat) },
            Entry { key: "urlEndLine"@, value: Json::Number(i.url_loc.end_line as nat) },
            Entry { key: "urlEndCol"@, value: Json::Number(i.url_loc.end_col as nat) },
            Entry { key: "names"@, value: Json::List(name_list(i.names)) },
        ],
    )
}

/// The JSON objects for imports.
pub open spec fn import_list(imports: Seq<ImportModel>) -> Seq<Json> {
    imports.map_values(|i: ImportModel| import_json(i))
}

/// The JSON text for imports.
pub open spec fn imports_text(imports: Seq<ImportModel>) -> Seq<char> {
    json_text(Json::List(import_list(imports)))
}

fn make_name(n: &ImportedName) -> (v: Value)
    ensures
        json_of(v) == name_json(n@),
{
    let mut members: Vec<Member> = Vec::new();
    add_text(&mut members, "name", n.name.as_str());
    add_range(&mut members, n.loc.line, n.loc.col, n.loc.end_line, n.loc.end_col);
    let v = Value::Object(members);
    assert(json_of(v)->Object_0 =~= name_json(n@)->Object_0);
    v
}

fn make_names(names: &Vec<ImportedName>) -> (v: Value)
    ensures
        json_of(v) == Json::List(name_list(name_views(names@))),
{
    let ghost wanted = name_list(name_views(names@));
    let mut items: Vec<Value> = Vec::new();
    assert(items_of(items@) =~= wanted.take(0));
    for i in 0..names.len()
        invariant
            wanted == name_list(name_views(names@)),
            items_of(items@) == wanted.take(i as int),
    {
        let item = make_name(&names[i]);
        proof {
            lemma_items_push(items@, item);
            assert(wanted.take(i + 1) =~= wanted.take(i as int).push(wanted[i as int]));
        }
        items.push(item);
    }
    assert(wanted.take(names.len() as int) =~= wanted);
    Value::List(items)
}

fn make_import(imp: &ImportInfo) -> (v: Value)
    ensures
        json_of(v) == import_json(imp@),
{
    let mut members: Vec<Member> = Vec::new();
    add_text(&mut members, "url", imp.url.as_str());
    add_number(&mut members, "urlLine", imp.url_loc.line);
    add_number(&mut members, "urlCol", imp.url_loc.col);
    add_number(&mut members, "urlEndLine", imp.url_loc.end_line);
    add_number(&mut members, "urlEndCol", imp.url_loc.end_col);
    add_member(&mut members, "names", make_names(&imp.names));
    let v = Value::Object(members);
    assert(json_of(v)->Object_0 =~= import_json(imp@)->Object_0);
    v
}

/// Writes imports as a JSON array.
pub fn write_imports(imports: &Vec<ImportInfo>) -> (json: String)
    ensures
        json@ == imports_text(import_views(imports@)),
{
    let ghost wanted = import_list(import_views(imports@));
    let mut items: Vec<Value> = Vec::new();
    assert(items_of(items@) =~= wanted.take(0));
    for i in 0..imports.len()
        invariant
            wanted == import_list(import_views(imports@)),
            items_of(items@) == wanted.take(i as int),
    {
        let item = make_import(&imports[i]);
        proof {
            lemma_items_push(items@, item);
            assert(wanted.take(i + 1) =~= wanted.take(i as int).push(wanted[i as int]));
        }
        items.push(item);
    }
    assert(wanted.take(imports.len() as int) =~= wanted);
    write_json(&Value::List(items))
}

/// The JSON text for imports reads back: one object for each import, in order, with its URL,
/// its names and their places.
pub proof fn imports_read_back(imports: Seq<ImportModel>)
    ensures
        read_json(imports_text(imports)) == Some(
            (Json::List(import_list(imports)), Seq::<char>::empty()),
        ),
{
    let none = Seq::<char>::empty();
    json_reads_back(Json::List(import_list(imports)), none);
    assert(imports_text(imports) + none =~= imports_text(imports));
}

/// Every import that is reported imports at least one name.
pub proof fn imports_have_names(root: Node, i: int)
    requires
        0 <= i < imports_of(root).len(),
    ensures
        imports_of(root)[i].names.len() > 0,
{
    if let NodeKind::Module { exprs } = root.kind {
        lemma_imports_have_names(exprs@, i);
    }
}

proof fn lemma_imports_have_names(exprs: Seq<Node>, i: int)
    requires
        0 <= i < imports_among(exprs).len(),
    ensures
        imports_among(exprs)[i].names.len() > 0,
    decreases exprs.len(),
{
    if i < imports_among(exprs.drop_last()).len() {
        lemma_imports_have_names(exprs.drop_last(), i);
    }
}

} // verus!
