//! A store of suggestion entries, looked up by identifier or by what an entry
//! describes, and the documentation pages rendered from them.

use std::collections::HashMap;
use std::rc::Rc;
use vstd::prelude::*;
use vstd::std_specs::iter::IteratorSpec;
use vstd::string::StringExecFns;

verus! {

/// Notification about a change in a suggestion database.
#[derive(Clone, Copy, Debug, PartialEq, Eq, Structural)]
pub enum Notification {
    /// The database has been updated.
    Updated,
}

/// What a suggestion entry describes.
#[derive(Clone, Copy, Debug, PartialEq, Eq, Structural)]
pub enum Kind {
    Atom,
    Function,
    Local,
    Method,
    Module,
}

/// Identifier of an entry in the store.
pub type Id = usize;

/// A rendered documentation page.
pub type Documentation = String;

/// A suggestion entry.
#[derive(Clone, Debug, PartialEq, Eq)]
pub struct Entry {
    /// The name of the described thing.
    pub name: String,
    /// What the entry describes.
    pub kind: Kind,
    /// The qualified name of the module in which the thing is defined.
    pub module: String,
    /// The qualified name of the type that a method is defined for.
    pub self_type: Option<String>,
    /// The documentation of the thing, rendered as HTML.
    pub documentation_html: Option<String>,
}

/// What identifies a method: its module, the type it is defined for and its
/// name.
#[derive(Clone, Debug, PartialEq, Eq)]
pub struct MethodId {
    pub module: String,
    pub defined_on_type: String,
    pub name: String,
}

/// The separator between the parts of a qualified name.
pub const ACCESS: &'static str = ".";

impl Entry {
    /// The entry's self type is `tp`.
    pub open spec fn spec_has_self_type(&self, tp: Seq<char>) -> bool {
        self.self_type matches Some(own) && own@ == tp
    }

    /// The qualified name of the described thing: its module and its name,
    /// joined by a dot.
    pub open spec fn spec_qualified_name(&self) -> Seq<char> {
        self.module@ + ACCESS@ + self.name@
    }

    /// The entry describes the method that `id` identifies.
    pub open spec fn spec_is_method(&self, id: &MethodId) -> bool {
        &&& self.kind == Kind::Method
        &&& self.spec_has_self_type(id.defined_on_type@)
        &&& self.module@ == id.module@
        &&& self.name@ == id.name@
    }

    /// Whether the entry's self type is `tp`.
    pub fn has_self_type(&self, tp: &String) -> (b: bool)
        ensures
            b == self.spec_has_self_type(tp@),
    {
        match &self.self_type {
            Some(own) => *own == *tp,
            None => false,
        }
    }

    /// Whether the entry is called `name`.
    pub fn matches_name(&self, name: &String) -> (b: bool)
        ensures
            b == (self.name@ == name@),
    {
        self.name == *name
    }

    /// The qualified name of the described thing.
    pub fn qualified_name(&self) -> (name: String)
        ensures
            name@ == self.spec_qualified_name(),
    {
        let mut name = self.module.clone();
        name.append(ACCESS);
        name.append(self.name.as_str());
        name
    }

    /// Whether the entry describes the method that `id` identifies.
    pub fn is_method(&self, id: &MethodId) -> (b: bool)
        ensures
            b == self.spec_is_method(id),
    {
        self.kind == Kind::Method && self.has_self_type(&id.defined_on_type) && self.module
            == id.module && self.name == id.name
    }
}

/// What a lookup asks of an entry.
pub enum Query<'a> {
    /// The method that the identifier names.
    Method(&'a MethodId),
    /// The method of the given name that is defined for the given module.
    ModuleMethod(&'a String, &'a String),
    /// A method that is defined for the given module or type.
    MethodOf(&'a String),
    /// An atom that is defined in the given module.
    AtomIn(&'a String),
    /// The entry of the given module itself.
    Module(&'a String),
    /// The atom of the given qualified name.
    Atom(&'a String),
}

impl<'a> Query<'a> {
    /// The entry is what the query asks for.
    pub open spec fn accepts(&self, entry: &Entry) -> bool {
        match *self {
            Query::Method(id) => entry.spec_is_method(id),
            Query::ModuleMethod(name, module) => entry.kind == Kind::Method
                && entry.spec_has_self_type(module@) && entry.name@ == name@,
            Query::MethodOf(tp) => entry.kind == Kind::Method && entry.spec_has_self_type(tp@),
            Query::AtomIn(module) => entry.kind == Kind::Atom && entry.module@ == module@,
            Query::Module(module) => entry.kind == Kind::Module && entry.module@ == module@,
            Query::Atom(name) => entry.kind == Kind::Atom && entry.spec_qualified_name() == name@,
        }
    }

    /// Whether the entry is what the query asks for.
    pub fn test(&self, entry: &Entry) -> (b: bool)
        ensures
            b == self.accepts(entry),
    {
        match *self {
            Query::Method(id) => entry.is_method(id),
            Query::ModuleMethod(name, module) => entry.kind == Kind::Method && entry.has_self_type(
                module,
            ) && entry.matches_name(name),
            Query::MethodOf(tp) => entry.kind == Kind::Method && entry.has_self_type(tp),
            Query::AtomIn(module) => entry.kind == Kind::Atom && entry.module == *module,
            Query::Module(module) => entry.kind == Kind::Module && entry.module == *module,
            Query::Atom(name) => entry.kind == Kind::Atom && entry.qualified_name() == *name,
        }
    }
}

/// The test that `query` makes of an entry.
pub open spec fn accepted(query: Query) -> spec_fn(Rc<Entry>) -> bool {
    |entry: Rc<Entry>| query.accepts(&*entry)
}

/// Another handle to the entry behind `entry`. Wraps `Rc::clone` of the
/// standard library, which hands back a pointer to the same value.
#[verifier::external_body]
fn share(entry: &Rc<Entry>) -> (shared: Rc<Entry>)
    ensures
        shared == *entry,
{
    Rc::clone(entry)
}

/// The entries of a store, each under its identifier.
pub struct DataStore {
    storage: HashMap<Id, Rc<Entry>>,
}

impl View for DataStore {
    type V = Map<Id, Rc<Entry>>;

    closed spec fn view(&self) -> Map<Id, Rc<Entry>> {
        self.storage@
    }
}

/// The store `store` after the entries of `entries` were put into it, one
/// after the other.
pub open spec fn with_entries(store: Map<Id, Rc<Entry>>, entries: Seq<(Id, Entry)>) -> Map<
    Id,
    Rc<Entry>,
>
    decreases entries.len(),
{
    if entries.len() == 0 {
        store
    } else {
        with_entries(store, entries.drop_last()).insert(
            entries.last().0,
            Rc::new(entries.last().1),
        )
    }
}

/// The entries that stand under the identifiers `ids`, in that order.
pub open spec fn entries_along(store: Map<Id, Rc<Entry>>, ids: Seq<Id>) -> Seq<Rc<Entry>> {
    Seq::new(ids.len(), |i: int| store[ids[i]])
}

/// `walk` is one order in which the entries of `store` may be walked: it
/// holds the entry of every identifier of the store, once for each
/// identifier.
pub open spec fn is_walk(store: Map<Id, Rc<Entry>>, walk: Seq<Rc<Entry>>) -> bool {
    exists|ids: Seq<Id>|
        ids.no_duplicates() && ids.to_set() == store.dom() && walk == #[trigger] entries_along(
            store,
            ids,
        )
}

impl DataStore {
    /// A store without entries.
    pub fn new() -> (store: DataStore)
        ensures
            store@ == Map::<Id, Rc<Entry>>::empty(),
    {
        DataStore { storage: HashMap::new() }
    }

    /// A store that holds the entries of `entries`, each under its
    /// identifier; of two entries under one identifier the later one.
    pub fn from_entries(entries: Vec<(Id, Entry)>) -> (store: DataStore)
        ensures
            store@ == with_entries(Map::empty(), entries@),
    {
        let mut store = DataStore::new();
        store.insert_entries(entries);
        store
    }

    /// Puts every entry of `entries` under its identifier, the later ones in
    /// place of the earlier ones.
    pub fn insert_entries(&mut self, entries: Vec<(Id, Entry)>)
        ensures
            final(self)@ == with_entries(old(self)@, entries@),
    {
        let ghost all = entries@;
        let ghost mut done: int = 0;
        proof {
            assert(all.take(0) =~= Seq::<(Id, Entry)>::empty());
        }
        for pair in it: entries
            invariant
                it.seq() == all,
                done == it.index(),
                0 <= done <= all.len(),
                self@ == with_entries(old(self)@, all.take(done)),
        {
            let (id, entry) = pair;
            proof {
                assert(all.take(done + 1).drop_last() =~= all.take(done));
                assert(all.take(done + 1).last() == (id, entry));
                done = done + 1;
            }
            self.insert_entry(id, entry);
        }
        proof {
            assert(all.take(done) =~= all);
        }
    }

    /// Puts `entry` under `id`, in place of the entry that was there.
    pub fn insert_entry(&mut self, id: Id, entry: Entry)
        ensures
            final(self)@ == old(self)@.insert(id, Rc::new(entry)),
    {
        self.storage.insert(id, Rc::new(entry));
    }

    /// Takes the entry under `id` out of the store.
    pub fn remove_entry(&mut self, id: Id) -> (removed: Option<Rc<Entry>>)
        ensures
            final(self)@ == old(self)@.remove(id),
            removed == if old(self)@.contains_key(id) {
                Some(old(self)@[id])
            } else {
                None
            },
    {
        self.storage.remove(&id)
    }

    /// The entry under `id`.
    pub fn get_entry(&self, id: Id) -> (entry: Option<Rc<Entry>>)
        ensures
            entry == if self@.contains_key(id) {
                Some(self@[id])
            } else {
                None
            },
    {
        match self.storage.get(&id) {
            Some(entry) => Some(share(entry)),
            None => None,
        }
    }

    /// Some entry that the query accepts, if the store holds one.
    fn find(&self, query: &Query) -> (found: Option<Rc<Entry>>)
        ensures
            match found {
                Some(entry) => self@.values().contains(entry) && query.accepts(&*entry),
                None => forall|entry: Rc<Entry>|
                    self@.values().contains(entry) ==> !query.accepts(&*entry),
            },
    {
        let entries = self.storage.values();
        let ghost walk = entries.remaining();
        let ghost mut checked: int = 0;
        for entry in it: entries
            invariant
                walk == it.seq(),
                checked == it.index(),
                walk.unref().to_set() == self@.values(),
                forall|i: int| 0 <= i < checked ==> !query.accepts(&**walk[i]),
        {
            if query.test(&**entry) {
                proof {
                    assert(walk.unref()[checked] == *entry);
                    assert(walk.unref().to_set().contains(*entry));
                }
                return Some(share(entry));
            }
            proof {
                checked = checked + 1;
            }
        }
        proof {
            assert forall|entry: Rc<Entry>| self@.values().contains(entry) implies !query.accepts(
                &*entry,
            ) by {
                assert(walk.unref().to_set().contains(entry));
                let i = choose|i: int| 0 <= i < walk.unref().len() && walk.unref()[i] == entry;
                assert(*walk[i] == entry);
            }
        }
        None
    }

    /// All entries that the query accepts, in the order of one walk of the
    /// store.
    fn collect(&self, query: &Query) -> (found: Vec<Rc<Entry>>)
        ensures
            exists|walk: Seq<Rc<Entry>>| is_walk(self@, walk) && found@ == walk.filter(accepted(*query)),
    {
        let mut found: Vec<Rc<Entry>> = Vec::new();
        let keys = self.storage.keys();
        let ghost ids = keys.remaining();
        let ghost mut checked: int = 0;
        proof {
            reveal(Seq::filter);
            assert(entries_along(self@, ids.unref().take(0)) =~= Seq::<Rc<Entry>>::empty());
        }
        for key in it: keys
            invariant
                ids == it.seq(),
                checked == it.index(),
                0 <= checked <= ids.len(),
                ids.unref().to_set() == self@.dom(),
                found@ == entries_along(self@, ids.unref().take(checked)).filter(accepted(*query)),
        {
            proof {
                reveal(Seq::filter);
                let done = entries_along(self@, ids.unref().take(checked));
                let upto = entries_along(self@, ids.unref().take(checked + 1));
                assert(ids.unref()[checked] == *key);
                assert(ids.unref().to_set().contains(*key));
                assert(upto.drop_last() =~= done);
                assert(upto.last() == self@[*key]);
            }
            match self.storage.get(key) {
                Some(entry) => {
                    if query.test(&**entry) {
                        found.push(share(entry));
                    }
                },
                None => {
                    assert(false);
                },
            }
            proof {
                checked = checked + 1;
            }
        }
        proof {
            assert(ids.unref().take(checked) =~= ids.unref());
            assert(ids.unref().no_duplicates()) by {
                assert forall|i: int, j: int|
                    0 <= i < ids.len() && 0 <= j < ids.len() && i != j implies ids.unref()[i]
                    != ids.unref()[j] by {
                    assert(ids[i] != ids[j]);
                }
            }
            assert(is_walk(self@, entries_along(self@, ids.unref())));
        }
        found
    }

    /// Some entry of the method that `id` identifies.
    pub fn get_method(&self, id: &MethodId) -> (found: Option<Rc<Entry>>)
        ensures
            match found {
                Some(entry) => self@.values().contains(entry) && entry.spec_is_method(id),
                None => forall|entry: Rc<Entry>|
                    self@.values().contains(entry) ==> !entry.spec_is_method(id),
            },
    {
        let query = Query::Method(id);
        let found = self.find(&query);
        proof {
            if found is None {
                assert forall|entry: Rc<Entry>| self@.values().contains(entry) implies !entry.spec_is_method(
                    id,
                ) by {
                    assert(!query.accepts(&*entry));
                }
            }
        }
        found
    }

    /// Some entry of a method called `name` that is defined for `module`.
    pub fn get_module_method(&self, name: &String, module: &String) -> (found: Option<Rc<Entry>>)
        ensures
            match found {
                Some(entry) => self@.values().contains(entry) && Query::ModuleMethod(
                    name,
                    module,
                ).accepts(&*entry),
                None => forall|entry: Rc<Entry>|
                    self@.values().contains(entry) ==> !Query::ModuleMethod(name, module).accepts(
                        &*entry,
                    ),
            },
    {
        self.find(&Query::ModuleMethod(name, module))
    }

    /// The entries of all methods that are defined for `module`.
    pub fn get_module_methods(&self, module: &String) -> (found: Vec<Rc<Entry>>)
        ensures
            exists|walk: Seq<Rc<Entry>>|
                is_walk(self@, walk) && found@ == walk.filter(accepted(Query::MethodOf(module))),
    {
        self.collect(&Query::MethodOf(module))
    }

    /// The entries of all atoms that are defined in `module`.
    pub fn get_module_atoms(&self, module: &String) -> (found: Vec<Rc<Entry>>)
        ensures
            exists|walk: Seq<Rc<Entry>>|
                is_walk(self@, walk) && found@ == walk.filter(accepted(Query::AtomIn(module))),
    {
        self.collect(&Query::AtomIn(module))
    }

    /// Some entry of the module `module` itself.
    pub fn get_module(&self, module: &String) -> (found: Option<Rc<Entry>>)
        ensures
            match found {
                Some(entry) => self@.values().contains(entry) && Query::Module(module).accepts(
                    &*entry,
                ),
                None => forall|entry: Rc<Entry>|
                    self@.values().contains(entry) ==> !Query::Module(module).accepts(&*entry),
            },
    {
        self.find(&Query::Module(module))
    }

    /// Some entry of the atom whose qualified name is `name`.
    pub fn get_atom(&self, name: &String) -> (found: Option<Rc<Entry>>)
        ensures
            match found {
                Some(entry) => self@.values().contains(entry) && Query::Atom(name).accepts(&*entry),
                None => forall|entry: Rc<Entry>|
                    self@.values().contains(entry) ==> !Query::Atom(name).accepts(&*entry),
            },
    {
        self.find(&Query::Atom(name))
    }

    /// The entries of all methods that are defined for the type `tp`.
    pub fn get_methods_for_type(&self, tp: &String) -> (found: Vec<Rc<Entry>>)
        ensures
            exists|walk: Seq<Rc<Entry>>|
                is_walk(self@, walk) && found@ == walk.filter(accepted(Query::MethodOf(tp))),
    {
        self.collect(&Query::MethodOf(tp))
    }
}

/// The opening of a documentation page.
pub const DOC_OPEN: &'static str = "<div class=\"doc\" style=\"font-size:13p;\">";

/// The closing of a documentation page.
pub const DOC_CLOSE: &'static str = "</div>";

/// The heading of the atoms of a module.
pub const ATOMS_SEPARATOR: &'static str = "<div class=\"separator\">Atoms</div>";

/// The heading of the methods of a module.
pub const METHODS_SEPARATOR: &'static str = "<div class=\"separator\">Methods</div>";

/// What stands in place of a missing documentation.
pub const NO_DOCS_PLACEHOLDER: &'static str =
    "<p style=\"color: #a3a6a9;\">No documentation available</p>";

/// What stands in place of the missing documentation of a method.
pub const NO_METHODS_PLACEHOLDER: &'static str =
    "<p style=\"color: #a3a6a9;\">No methods available</p>";

/// The opening of a paragraph.
pub const PARAGRAPH_OPEN: &'static str = "<p>";

/// The closing of a paragraph.
pub const PARAGRAPH_CLOSE: &'static str = "</p>";

/// The opening of the paragraph that starts the section of a method.
pub const RULED_PARAGRAPH_OPEN: &'static str = "<hr><p>";

/// The end of the title of an atom's page.
pub const ATOM_TITLE_CLOSE: &'static str = " - Atom</p>";

/// The end of the title of a module's page.
pub const MODULE_TITLE_CLOSE: &'static str = " - Module</p>";

/// The heading of the methods of an atom.
pub const ATOM_METHODS_HEADING: &'static str = "<p>Atom Methods</p>";

/// `s` as a documentation page.
pub open spec fn doc_container(s: Seq<char>) -> Seq<char> {
    DOC_OPEN@ + s + DOC_CLOSE@
}

/// `s` under `heading`; nothing where `s` is empty.
pub open spec fn section_container(heading: Seq<char>, s: Seq<char>) -> Seq<char> {
    if s.len() == 0 {
        s
    } else {
        heading + s
    }
}

/// The documentation `doc`, or `placeholder` where there is none.
pub open spec fn doc_or(doc: Option<String>, placeholder: Seq<char>) -> Seq<char> {
    match doc {
        Some(html) => html@,
        None => placeholder,
    }
}

/// The section of one method of an atom.
pub open spec fn atom_method_section(method: Entry) -> Seq<char> {
    RULED_PARAGRAPH_OPEN@ + method.name@ + PARAGRAPH_CLOSE@ + doc_or(
        method.documentation_html,
        NO_METHODS_PLACEHOLDER@,
    )
}

/// The sections of the methods of an atom, one after the other.
pub open spec fn atom_method_sections(methods: Seq<Rc<Entry>>) -> Seq<char>
    decreases methods.len(),
{
    if methods.len() == 0 {
        Seq::empty()
    } else {
        atom_method_sections(methods.drop_last()) + atom_method_section(*methods.last())
    }
}

/// The page of an atom, before it is put into its container.
pub open spec fn atom_page_text(atom: Entry, methods: Seq<Rc<Entry>>) -> Seq<char> {
    PARAGRAPH_OPEN@ + atom.name@ + ATOM_TITLE_CLOSE@ + doc_or(
        atom.documentation_html,
        NO_DOCS_PLACEHOLDER@,
    ) + ATOM_METHODS_HEADING@ + atom_method_sections(methods)
}

/// The page of an atom.
pub open spec fn atom_page(docs: AtomDocs) -> Seq<char> {
    doc_container(atom_page_text(*docs.atom, docs.methods@))
}

/// The pages of atoms, one after the other.
pub open spec fn atom_pages(atoms: Seq<AtomDocs>) -> Seq<char>
    decreases atoms.len(),
{
    if atoms.len() == 0 {
        Seq::empty()
    } else {
        atom_pages(atoms.drop_last()) + atom_page(atoms.last())
    }
}

/// The section of one method of a module.
pub open spec fn module_method_section(method: Entry) -> Seq<char> {
    PARAGRAPH_OPEN@ + method.name@ + PARAGRAPH_CLOSE@ + doc_or(
        method.documentation_html,
        NO_DOCS_PLACEHOLDER@,
    )
}

/// The sections of the methods of a module, one after the other.
pub open spec fn module_method_sections(methods: Seq<Rc<Entry>>) -> Seq<char>
    decreases methods.len(),
{
    if methods.len() == 0 {
        Seq::empty()
    } else {
        module_method_sections(methods.drop_last()) + module_method_section(*methods.last())
    }
}

/// The page of a module.
pub open spec fn module_page(docs: ModuleDocumentation) -> Seq<char> {
    doc_container(
        PARAGRAPH_OPEN@ + docs.module.name@ + MODULE_TITLE_CLOSE@ + doc_or(
            docs.module.documentation_html,
            NO_DOCS_PLACEHOLDER@,
        ) + section_container(ATOMS_SEPARATOR@, atom_pages(docs.atoms@)) + section_container(
            METHODS_SEPARATOR@,
            module_method_sections(docs.others@),
        ),
    )
}

/// Puts `s` into the container of a documentation page.
pub fn in_doc_container(s: String) -> (page: String)
    ensures
        page@ == doc_container(s@),
{
    let mut page = String::from_str(DOC_OPEN);
    page.append(s.as_str());
    page.append(DOC_CLOSE);
    page
}

/// Puts the heading of atoms before `s`, unless `s` is empty.
pub fn in_atoms_section_container(s: String) -> (section: String)
    ensures
        section@ == section_container(ATOMS_SEPARATOR@, s@),
{
    if s.as_str().is_empty() {
        s
    } else {
        let mut section = String::from_str(ATOMS_SEPARATOR);
        section.append(s.as_str());
        section
    }
}

/// Puts the heading of methods before `s`, unless `s` is empty.
pub fn in_methods_section_container(s: String) -> (section: String)
    ensures
        section@ == section_container(METHODS_SEPARATOR@, s@),
{
    if s.as_str().is_empty() {
        s
    } else {
        let mut section = String::from_str(METHODS_SEPARATOR);
        section.append(s.as_str());
        section
    }
}

/// Appends the documentation `doc` to `output`, or `placeholder` where there
/// is none.
fn append_doc(output: &mut String, doc: &Option<String>, placeholder: &str)
    ensures
        final(output)@ == old(output)@ + doc_or(*doc, placeholder@),
{
    match doc {
        Some(html) => output.append(html.as_str()),
        None => output.append(placeholder),
    }
}

/// The documentation of an atom: the atom and its methods.
pub struct AtomDocs {
    pub atom: Rc<Entry>,
    pub methods: Vec<Rc<Entry>>,
}

/// The documentation of a module: the module, its atoms and its other
/// methods.
pub struct ModuleDocumentation {
    pub module: Rc<Entry>,
    pub atoms: Vec<AtomDocs>,
    pub others: Vec<Rc<Entry>>,
}

impl AtomDocs {
    /// Renders the page of the atom.
    pub fn render(&self) -> (page: Documentation)
        ensures
            page@ == atom_page(*self),
    {
        let mut output = String::from_str(PARAGRAPH_OPEN);
        output.append(self.atom.name.as_str());
        output.append(ATOM_TITLE_CLOSE);
        append_doc(&mut output, &self.atom.documentation_html, NO_DOCS_PLACEHOLDER);
        output.append(ATOM_METHODS_HEADING);
        let ghost head = output@;
        let mut i: usize = 0;
        proof {
            assert(self.methods@.take(0) =~= Seq::<Rc<Entry>>::empty());
            assert(output@ =~= head + atom_method_sections(self.methods@.take(0)));
        }
        while i < self.methods.len()
            invariant
                i <= self.methods.len(),
                output@ == head + atom_method_sections(self.methods@.take(i as int)),
            decreases self.methods.len() - i,
        {
            let ghost before = output@;
            let doc = &self.methods[i];
            output.append(RULED_PARAGRAPH_OPEN);
            output.append(doc.name.as_str());
            output.append(PARAGRAPH_CLOSE);
            append_doc(&mut output, &doc.documentation_html, NO_METHODS_PLACEHOLDER);
            proof {
                let upto = self.methods@.take(i + 1);
                assert(upto.drop_last() =~= self.methods@.take(i as int));
                assert(upto.last() == self.methods@[i as int]);
                assert(output@ =~= before + atom_method_section(**doc));
                assert(output@ =~= head + atom_method_sections(upto));
            }
            i += 1;
        }
        proof {
            assert(self.methods@.take(i as int) =~= self.methods@);
            assert(output@ =~= atom_page_text(*self.atom, self.methods@));
        }
        in_doc_container(output)
    }
}

impl ModuleDocumentation {
    /// Renders the page of the module.
    pub fn render(&self) -> (page: Documentation)
        ensures
            page@ == module_page(*self),
    {
        let mut output = String::from_str(PARAGRAPH_OPEN);
        output.append(self.module.name.as_str());
        output.append(MODULE_TITLE_CLOSE);
        append_doc(&mut output, &self.module.documentation_html, NO_DOCS_PLACEHOLDER);
        let mut atom_doc = String::new();
        let mut i: usize = 0;
        proof {
            assert(self.atoms@.take(0) =~= Seq::<AtomDocs>::empty());
        }
        while i < self.atoms.len()
            invariant
                i <= self.atoms.len(),
                atom_doc@ == atom_pages(self.atoms@.take(i as int)),
            decreases self.atoms.len() - i,
        {
            let page = self.atoms[i].render();
            atom_doc.append(page.as_str());
            proof {
                let upto = self.atoms@.take(i + 1);
                assert(upto.drop_last() =~= self.atoms@.take(i as int));
                assert(upto.last() == self.atoms@[i as int]);
            }
            i += 1;
        }
        proof {
            assert(self.atoms@.take(i as int) =~= self.atoms@);
        }
        let atoms_section = in_atoms_section_container(atom_doc);
        output.append(atoms_section.as_str());
        let mut methods = String::new();
        let mut i: usize = 0;
        proof {
            assert(self.others@.take(0) =~= Seq::<Rc<Entry>>::empty());
        }
        while i < self.others.len()
            invariant
                i <= self.others.len(),
                methods@ == module_method_sections(self.others@.take(i as int)),
            decreases self.others.len() - i,
        {
            let ghost before = methods@;
            let entry = &self.others[i];
            methods.append(PARAGRAPH_OPEN);
            methods.append(entry.name.as_str());
            methods.append(PARAGRAPH_CLOSE);
            append_doc(&mut methods, &entry.documentation_html, NO_DOCS_PLACEHOLDER);
            proof {
                let upto = self.others@.take(i + 1);
                assert(upto.drop_last() =~= self.others@.take(i as int));
                assert(upto.last() == self.others@[i as int]);
                assert(methods@ =~= before + module_method_section(**entry));
            }
            i += 1;
        }
        proof {
            assert(self.others@.take(i as int) =~= self.others@);
        }
        let methods_section = in_methods_section_container(methods);
        output.append(methods_section.as_str());
        in_doc_container(output)
    }
}

/// The store holds no entry under the identifier.
#[derive(Clone, Copy, Debug, PartialEq, Eq, Structural)]
pub struct NoSuchEntry(pub Id);

/// A change of the store.
pub enum Update {
    /// The entry is put under the identifier.
    Add { id: Id, entry: Entry },
    /// The entry under the identifier is taken out.
    Remove { id: Id },
}

/// What became of an update.
#[derive(Clone, Copy, Debug, PartialEq, Eq, Structural)]
pub enum Applied {
    /// The entry was put into the store.
    Added,
    /// The entry was taken out of the store.
    Removed,
    /// There was no entry to take out under the identifier.
    NothingToRemove(Id),
}

impl DataStore {
    /// The entry under `id`, or the error that names `id` where there is none.
    pub fn lookup(&self, id: Id) -> (found: Result<Rc<Entry>, NoSuchEntry>)
        ensures
            found == if self@.contains_key(id) {
                Ok::<Rc<Entry>, NoSuchEntry>(self@[id])
            } else {
                Err::<Rc<Entry>, NoSuchEntry>(NoSuchEntry(id))
            },
    {
        match self.get_entry(id) {
            Some(entry) => Ok(entry),
            None => Err(NoSuchEntry(id)),
        }
    }

    /// Applies one update to the store.
    pub fn apply_update(&mut self, update: Update) -> (applied: Applied)
        ensures
            final(self)@ == store_after(old(self)@, update),
            applied == outcome_of(old(self)@, update),
    {
        match update {
            Update::Add { id, entry } => {
                self.insert_entry(id, entry);
                Applied::Added
            },
            Update::Remove { id } => {
                match self.remove_entry(id) {
                    Some(_) => Applied::Removed,
                    None => Applied::NothingToRemove(id),
                }
            },
        }
    }

    /// Applies the updates to the store, one after the other. Returns what
    /// became of each.
    pub fn apply_updates(&mut self, updates: Vec<Update>) -> (applied: Vec<Applied>)
        ensures
            final(self)@ == store_after_all(old(self)@, updates@),
            applied@ == outcomes_of(old(self)@, updates@),
    {
        let mut applied: Vec<Applied> = Vec::new();
        let ghost all = updates@;
        let ghost mut done: int = 0;
        proof {
            assert(all.take(0) =~= Seq::<Update>::empty());
        }
        for update in it: updates
            invariant
                it.seq() == all,
                done == it.index(),
                0 <= done <= all.len(),
                self@ == store_after_all(old(self)@, all.take(done)),
                applied@ == outcomes_of(old(self)@, all.take(done)),
        {
            proof {
                assert(all.take(done + 1).drop_last() =~= all.take(done));
                assert(all.take(done + 1).last() == update);
                done = done + 1;
            }
            let outcome = self.apply_update(update);
            applied.push(outcome);
        }
        proof {
            assert(all.take(done) =~= all);
        }
        applied
    }

    /// The documentation of the atom whose qualified name is `tp`: some
    /// entry of the atom, and the methods that are defined for it.
    pub fn get_atom_docs(&self, tp: &String) -> (docs: Option<AtomDocs>)
        ensures
            match docs {
                Some(docs) => atom_docs_for(self@, tp, docs),
                None => !has_atom(self@, tp),
            },
    {
        match self.get_atom(tp) {
            Some(atom) => {
                let methods = self.get_methods_for_type(tp);
                Some(AtomDocs { atom, methods })
            },
            None => None,
        }
    }

    /// The documentation of the atoms that are named by the self types of
    /// `entries`, in the order of the entries. An entry without a self type,
    /// or whose self type names no atom of the store, adds nothing.
    fn atom_docs_of(&self, entries: &Vec<Rc<Entry>>) -> (docs: Vec<AtomDocs>)
        ensures
            atom_docs_match(self@, entries@, docs@),
    {
        let mut docs: Vec<AtomDocs> = Vec::new();
        let mut i: usize = 0;
        proof {
            assert(entries@.take(0) =~= Seq::<Rc<Entry>>::empty());
        }
        while i < entries.len()
            invariant
                i <= entries.len(),
                atom_docs_match(self@, entries@.take(i as int), docs@),
            decreases entries.len() - i,
        {
            let ghost before = docs@;
            proof {
                assert(entries@.take(i + 1).drop_last() =~= entries@.take(i as int));
                assert(entries@.take(i + 1).last() == entries@[i as int]);
            }
            match &entries[i].self_type {
                Some(atom_type) => {
                    match self.get_atom_docs(atom_type) {
                        Some(found) => {
                            docs.push(found);
                            proof {
                                assert(docs@.drop_last() =~= before);
                                assert(docs@.last() == found);
                                assert(names_atom(self@, *entries@[i as int]));
                            }
                        },
                        None => {
                            proof {
                                assert(!names_atom(self@, *entries@[i as int]));
                            }
                        },
                    }
                },
                None => {
                    proof {
                        assert(!names_atom(self@, *entries@[i as int]));
                    }
                },
            }
            i += 1;
        }
        proof {
            assert(entries@.take(i as int) =~= entries@);
        }
        docs
    }

    /// The documentation of the module `module`: some entry of the module,
    /// the documentation of the atoms that the atoms of the module name as
    /// their type, and the methods that are defined for the module. Nothing
    /// where the store holds no entry of the module.
    pub fn get_module_doc(&self, module: &String) -> (docs: Option<ModuleDocumentation>)
        ensures
            match docs {
                Some(docs) => module_docs_for(self@, module, docs),
                None => forall|entry: Rc<Entry>|
                    self@.values().contains(entry) ==> !Query::Module(module).accepts(&*entry),
            },
    {
        match self.get_module(module) {
            Some(module_entry) => {
                let module_atom_entries = self.get_module_atoms(module);
                let atoms = self.atom_docs_of(&module_atom_entries);
                let others = self.get_module_methods(module);
                let ghost listed = module_atom_entries@;
                let docs = ModuleDocumentation { module: module_entry, atoms, others };
                proof {
                    let walk = choose|walk: Seq<Rc<Entry>>|
                        is_walk(self@, walk) && listed == walk.filter(
                            accepted(Query::AtomIn(module)),
                        );
                    assert(is_walk(self@, walk));
                    assert(listed == walk.filter(accepted(Query::AtomIn(module))));
                    assert(atom_docs_match(self@, listed, docs.atoms@));
                    assert(is_walk(self@, walk) && atom_docs_match(
                        self@,
                        walk.filter(accepted(Query::AtomIn(module))),
                        docs.atoms@,
                    ));
                }
                Some(docs)
            },
            None => None,
        }
    }

    /// The documentation page of `entry`: the page of the atom or of the
    /// module that the entry describes, or else the entry's own
    /// documentation. Nothing where there is none, or where it is empty.
    pub fn get_documentation_for_entry(&self, entry: &Entry) -> (page: Option<Documentation>)
        ensures
            documented(self@, entry, page),
            page matches Some(text) ==> text@.len() > 0,
    {
        let docs = match entry.kind {
            Kind::Atom => {
                let name = entry.qualified_name();
                match self.get_atom_docs(&name) {
                    Some(docs) => {
                        let text = docs.render();
                        proof {
                            assert(name@ == entry.spec_qualified_name() && atom_docs_for(
                                self@,
                                &name,
                                docs,
                            ) && text@ == atom_page(docs));
                        }
                        Some(text)
                    },
                    None => {
                        proof {
                            assert forall|atom: Rc<Entry>|
                                self@.values().contains(atom) implies !(atom.kind == Kind::Atom
                                && atom.spec_qualified_name() == entry.spec_qualified_name()) by {
                                assert(!Query::Atom(&name).accepts(&*atom));
                            }
                        }
                        return None;
                    },
                }
            },
            Kind::Module => {
                match self.get_module_doc(&entry.module) {
                    Some(docs) => {
                        let text = docs.render();
                        proof {
                            assert(module_docs_for(self@, &entry.module, docs) && text@
                                == module_page(docs));
                        }
                        Some(text)
                    },
                    None => {
                        proof {
                            assert forall|found: Rc<Entry>|
                                self@.values().contains(found) implies !(found.kind
                                == Kind::Module && found.module@ == entry.module@) by {
                                assert(!Query::Module(&entry.module).accepts(&*found));
                            }
                        }
                        return None;
                    },
                }
            },
            _ => {
                match &entry.documentation_html {
                    Some(html) => Some(html.clone()),
                    None => None,
                }
            },
        };
        match docs {
            Some(text) => {
                if text.as_str().is_empty() {
                    proof {
                        lemma_pages_are_not_empty();
                    }
                    None
                } else {
                    Some(text)
                }
            },
            None => None,
        }
    }

    /// The documentation page of the entry under `id`: what
    /// `get_documentation_for_entry` gives for that entry, and nothing where
    /// the store holds no entry under `id`.
    pub fn get_documentation(&self, id: Id) -> (page: Option<Documentation>)
        ensures
            !self@.contains_key(id) ==> page is None,
            self@.contains_key(id) ==> documented(self@, &*self@[id], page),
            page matches Some(text) ==> text@.len() > 0,
    {
        match self.lookup(id) {
            Ok(entry) => self.get_documentation_for_entry(&*entry),
            Err(_) => None,
        }
    }
}

/// A documentation page is never empty: it holds at least its container.
pub proof fn lemma_pages_are_not_empty()
    ensures
        forall|s: Seq<char>| (#[trigger] doc_container(s)).len() > 0,
{
    reveal_strlit("</div>");
    assert forall|s: Seq<char>| (#[trigger] doc_container(s)).len() > 0 by {
        assert(DOC_CLOSE@.len() == 6);
    }
}

/// The store holds an entry of the atom whose qualified name is `tp`.
pub open spec fn has_atom(store: Map<Id, Rc<Entry>>, tp: &String) -> bool {
    exists|entry: Rc<Entry>| #[trigger]
        store.values().contains(entry) && Query::Atom(tp).accepts(&*entry)
}

/// `docs` documents the atom whose qualified name is `tp`: its atom is an
/// entry of that atom in the store, and its methods are the methods that the
/// store holds for the atom, in the order of one walk of the store.
pub open spec fn atom_docs_for(store: Map<Id, Rc<Entry>>, tp: &String, docs: AtomDocs) -> bool {
    &&& store.values().contains(docs.atom)
    &&& Query::Atom(tp).accepts(&*docs.atom)
    &&& exists|walk: Seq<Rc<Entry>>|
        is_walk(store, walk) && docs.methods@ == walk.filter(accepted(Query::MethodOf(tp)))
}

/// The entry has a self type, and the store holds an entry of the atom that
/// the self type names.
pub open spec fn names_atom(store: Map<Id, Rc<Entry>>, entry: Entry) -> bool {
    entry.self_type is Some && has_atom(store, &entry.self_type->0)
}

/// `docs` holds, in the order of `entries`, one documentation for every entry
/// whose self type names an atom of the store, and it documents that atom.
pub open spec fn atom_docs_match(
    store: Map<Id, Rc<Entry>>,
    entries: Seq<Rc<Entry>>,
    docs: Seq<AtomDocs>,
) -> bool
    decreases entries.len(),
{
    if entries.len() == 0 {
        docs.len() == 0
    } else if names_atom(store, *entries.last()) {
        &&& docs.len() > 0
        &&& atom_docs_for(store, &entries.last().self_type->0, docs.last())
        &&& atom_docs_match(store, entries.drop_last(), docs.drop_last())
    } else {
        atom_docs_match(store, entries.drop_last(), docs)
    }
}

/// `docs` documents the module `module`: its module is an entry of the
/// module in the store; its atoms document, in the order of one walk of the
/// store, the atoms that the atoms of the module name as their type; and its
/// other methods are the methods that the store holds for the module, in the
/// order of one walk.
pub open spec fn module_docs_for(
    store: Map<Id, Rc<Entry>>,
    module: &String,
    docs: ModuleDocumentation,
) -> bool {
    &&& store.values().contains(docs.module)
    &&& Query::Module(module).accepts(&*docs.module)
    &&& exists|walk: Seq<Rc<Entry>>|
        is_walk(store, walk) && #[trigger] atom_docs_match(
            store,
            walk.filter(accepted(Query::AtomIn(module))),
            docs.atoms@,
        )
    &&& exists|walk: Seq<Rc<Entry>>|
        is_walk(store, walk) && docs.others@ == walk.filter(accepted(Query::MethodOf(module)))
}

/// `page` is the documentation page that the store gives for `entry`.
/// For an atom it is the page of some documentation of the atom of the
/// entry's qualified name, and nothing where the store holds no such atom;
/// for a module, likewise with the entry's module; for every other entry it
/// is the entry's own documentation, and nothing where that is missing or
/// empty.
pub open spec fn documented(
    store: Map<Id, Rc<Entry>>,
    entry: &Entry,
    page: Option<Documentation>,
) -> bool {
    match entry.kind {
        Kind::Atom => match page {
            Some(text) => exists|name: String, docs: AtomDocs|
                name@ == entry.spec_qualified_name() && #[trigger] atom_docs_for(
                    store,
                    &name,
                    docs,
                ) && text@ == atom_page(docs),
            None => forall|atom: Rc<Entry>| #[trigger]
                store.values().contains(atom) ==> !(atom.kind == Kind::Atom
                    && atom.spec_qualified_name() == entry.spec_qualified_name()),
        },
        Kind::Module => match page {
            Some(text) => exists|docs: ModuleDocumentation| #[trigger]
                module_docs_for(store, &entry.module, docs) && text@ == module_page(docs),
            None => forall|found: Rc<Entry>| #[trigger]
                store.values().contains(found) ==> !(found.kind == Kind::Module
                    && found.module@ == entry.module@),
        },
        _ => page == (match entry.documentation_html {
            Some(html) => if html@.len() == 0 {
                None
            } else {
                Some(html)
            },
            None => None,
        }),
    }
}

/// The store after one update.
pub open spec fn store_after(store: Map<Id, Rc<Entry>>, update: Update) -> Map<Id, Rc<Entry>> {
    match update {
        Update::Add { id, entry } => store.insert(id, Rc::new(entry)),
        Update::Remove { id } => store.remove(id),
    }
}

/// What becomes of one update.
pub open spec fn outcome_of(store: Map<Id, Rc<Entry>>, update: Update) -> Applied {
    match update {
        Update::Add { id, entry } => Applied::Added,
        Update::Remove { id } => if store.contains_key(id) {
            Applied::Removed
        } else {
            Applied::NothingToRemove(id)
        },
    }
}

/// The store after the updates, applied one after the other.
pub open spec fn store_after_all(store: Map<Id, Rc<Entry>>, updates: Seq<Update>) -> Map<
    Id,
    Rc<Entry>,
>
    decreases updates.len(),
{
    if updates.len() == 0 {
        store
    } else {
        store_after(store_after_all(store, updates.drop_last()), updates.last())
    }
}

/// What becomes of each of the updates, applied one after the other.
pub open spec fn outcomes_of(store: Map<Id, Rc<Entry>>, updates: Seq<Update>) -> Seq<Applied>
    decreases updates.len(),
{
    if updates.len() == 0 {
        Seq::empty()
    } else {
        outcomes_of(store, updates.drop_last()).push(
            outcome_of(store_after_all(store, updates.drop_last()), updates.last()),
        )
    }
}

} // verus!
