use scene_layers::suggestion_database::{
    in_atoms_section_container, in_doc_container, in_methods_section_container, Applied, AtomDocs,
    DataStore, Entry, Kind, MethodId, ModuleDocumentation, NoSuchEntry, Notification, Update,
};
use std::rc::Rc;

fn entry(name: &str, kind: Kind, module: &str, self_type: Option<&str>, doc: Option<&str>) -> Entry {
    Entry {
        name: name.to_string(),
        kind,
        module: module.to_string(),
        self_type: self_type.map(|tp| tp.to_string()),
        documentation_html: doc.map(|html| html.to_string()),
    }
}

fn store() -> DataStore {
    let mut store = DataStore::new();
    store.insert_entry(1, entry("Main", Kind::Module, "Project.Main", None, Some("<p>Main</p>")));
    store.insert_entry(2, entry("Point", Kind::Atom, "Project.Main", Some("Project.Main.Point"), None));
    store.insert_entry(
        3,
        entry("norm", Kind::Method, "Project.Main", Some("Project.Main.Point"), Some("<p>Norm</p>")),
    );
    store.insert_entry(4, entry("main", Kind::Method, "Project.Main", Some("Project.Main"), None));
    store.insert_entry(5, entry("helper", Kind::Function, "Project.Main", None, Some("")));
    store
}

#[test]
fn containers_wrap_their_content() {
    assert_eq!(
        in_doc_container("x".to_string()),
        "<div class=\"doc\" style=\"font-size:13p;\">x</div>"
    );
    assert_eq!(
        in_doc_container(String::new()),
        "<div class=\"doc\" style=\"font-size:13p;\"></div>"
    );
    assert_eq!(in_atoms_section_container(String::new()), "");
    assert_eq!(
        in_atoms_section_container("a".to_string()),
        "<div class=\"separator\">Atoms</div>a"
    );
    assert_eq!(in_methods_section_container(String::new()), "");
    assert_eq!(
        in_methods_section_container("m".to_string()),
        "<div class=\"separator\">Methods</div>m"
    );
}

#[test]
fn entries_are_looked_up_by_identifier() {
    let mut store = store();
    assert_eq!(store.get_entry(2).unwrap().name, "Point");
    assert!(store.get_entry(9).is_none());
    assert_eq!(store.lookup(3).unwrap().name, "norm");
    assert_eq!(store.lookup(12).unwrap_err(), NoSuchEntry(12));
    assert_eq!(store.remove_entry(2).unwrap().name, "Point");
    assert!(store.remove_entry(2).is_none());
    assert!(store.get_entry(2).is_none());
    store.insert_entry(3, entry("size", Kind::Method, "Project.Main", None, None));
    assert_eq!(store.get_entry(3).unwrap().name, "size");
    assert_eq!(Notification::Updated, Notification::Updated);
}

#[test]
fn updates_are_applied() {
    let mut store = DataStore::new();
    let added = Update::Add { id: 2, entry: entry("Entry2", Kind::Atom, "M", None, None) };
    assert_eq!(store.apply_update(added), Applied::Added);
    assert_eq!(store.lookup(2).unwrap().name, "Entry2");
    let replaced = Update::Add { id: 2, entry: entry("NewEntry2", Kind::Atom, "M", None, None) };
    assert_eq!(store.apply_update(replaced), Applied::Added);
    assert_eq!(store.lookup(2).unwrap().name, "NewEntry2");
    assert_eq!(store.apply_update(Update::Remove { id: 2 }), Applied::Removed);
    assert_eq!(store.lookup(2), Err(NoSuchEntry(2)));
    assert_eq!(store.apply_update(Update::Remove { id: 2 }), Applied::NothingToRemove(2));
}

#[test]
fn entries_are_found_by_what_they_describe() {
    let store = store();
    let module = "Project.Main".to_string();
    let point = "Project.Main.Point".to_string();
    assert_eq!(store.get_module(&module).unwrap().name, "Main");
    assert!(store.get_module(&point).is_none());
    assert_eq!(store.get_atom(&point).unwrap().name, "Point");
    assert!(store.get_atom(&module).is_none());
    let atoms = store.get_module_atoms(&module);
    assert_eq!(atoms.len(), 1);
    assert_eq!(atoms[0].name, "Point");
    let methods = store.get_module_methods(&module);
    assert_eq!(methods.len(), 1);
    assert_eq!(methods[0].name, "main");
    let methods = store.get_methods_for_type(&point);
    assert_eq!(methods.len(), 1);
    assert_eq!(methods[0].name, "norm");
    assert!(store.get_methods_for_type(&"Other".to_string()).is_empty());
    assert_eq!(store.get_module_method(&"main".to_string(), &module).unwrap().name, "main");
    assert!(store.get_module_method(&"norm".to_string(), &module).is_none());
    let id = MethodId {
        module: module.clone(),
        defined_on_type: point.clone(),
        name: "norm".to_string(),
    };
    assert_eq!(store.get_method(&id).unwrap().name, "norm");
    let id = MethodId { module, defined_on_type: point, name: "main".to_string() };
    assert!(store.get_method(&id).is_none());
}

#[test]
fn an_atom_page_lists_the_methods() {
    let docs = AtomDocs {
        atom: Rc::new(entry("Point", Kind::Atom, "M", None, None)),
        methods: vec![
            Rc::new(entry("norm", Kind::Method, "M", None, Some("<p>Norm</p>"))),
            Rc::new(entry("size", Kind::Method, "M", None, None)),
        ],
    };
    assert_eq!(
        docs.render(),
        "<div class=\"doc\" style=\"font-size:13p;\"><p>Point - Atom</p>\
         <p style=\"color: #a3a6a9;\">No documentation available</p><p>Atom Methods</p>\
         <hr><p>norm</p><p>Norm</p>\
         <hr><p>size</p><p style=\"color: #a3a6a9;\">No methods available</p></div>"
    );
}

#[test]
fn a_module_page_lists_atoms_and_methods() {
    let store = store();
    let docs = store.get_module_doc(&"Project.Main".to_string()).unwrap();
    assert_eq!(
        docs.render(),
        "<div class=\"doc\" style=\"font-size:13p;\"><p>Main - Module</p><p>Main</p>\
         <div class=\"separator\">Atoms</div>\
         <div class=\"doc\" style=\"font-size:13p;\"><p>Point - Atom</p>\
         <p style=\"color: #a3a6a9;\">No documentation available</p><p>Atom Methods</p>\
         <hr><p>norm</p><p>Norm</p></div>\
         <div class=\"separator\">Methods</div>\
         <p>main</p><p style=\"color: #a3a6a9;\">No documentation available</p></div>"
    );
    let bare = ModuleDocumentation {
        module: Rc::new(entry("Empty", Kind::Module, "Empty", None, Some("<p>E</p>"))),
        atoms: vec![],
        others: vec![],
    };
    assert_eq!(
        bare.render(),
        "<div class=\"doc\" style=\"font-size:13p;\"><p>Empty - Module</p><p>E</p></div>"
    );
    assert!(store.get_module_doc(&"Other".to_string()).is_none());
}

#[test]
fn documentation_is_found_for_entries() {
    let store = store();
    assert_eq!(store.get_documentation(3), Some("<p>Norm</p>".to_string()));
    assert_eq!(store.get_documentation(4), None);
    assert_eq!(store.get_documentation(5), None);
    assert_eq!(store.get_documentation(77), None);
    let page = store.get_documentation(2).unwrap();
    assert!(page.starts_with("<div class=\"doc\" style=\"font-size:13p;\"><p>Point - Atom</p>"));
    let page = store.get_documentation(1).unwrap();
    assert!(page.starts_with("<div class=\"doc\" style=\"font-size:13p;\"><p>Main - Module</p>"));
    let stranger = entry("Ghost", Kind::Atom, "Nowhere", None, Some("<p>x</p>"));
    assert_eq!(store.get_documentation_for_entry(&stranger), None);
    assert_eq!(stranger.qualified_name(), "Nowhere.Ghost");
    assert!(stranger.matches_name(&"Ghost".to_string()));
    assert!(!stranger.has_self_type(&"Nowhere".to_string()));
}

#[test]
fn a_store_is_filled_from_entries() {
    let store = DataStore::from_entries(vec![
        (12, entry("TextAtom", Kind::Atom, "TestProject.TestModule", None, None)),
        (7, entry("Old", Kind::Local, "M", None, None)),
        (7, entry("New", Kind::Local, "M", None, None)),
    ]);
    assert_eq!(store.lookup(12).unwrap().name, "TextAtom");
    assert_eq!(store.lookup(7).unwrap().name, "New");
    assert_eq!(store.lookup(1), Err(NoSuchEntry(1)));
    let empty = DataStore::from_entries(vec![]);
    assert!(empty.get_entry(12).is_none());
}

#[test]
fn equal_entries_under_two_identifiers_come_out_twice() {
    let mut store = DataStore::new();
    store.insert_entry(1, entry("a", Kind::Atom, "M", None, None));
    store.insert_entry(2, entry("size", Kind::Method, "M", Some("M"), None));
    store.insert_entry(3, entry("size", Kind::Method, "M", Some("M"), None));
    let methods = store.get_module_methods(&"M".to_string());
    assert_eq!(methods.len(), 2);
    assert_eq!(methods[0].name, "size");
    assert_eq!(methods[1].name, "size");
    assert_eq!(store.get_module_atoms(&"M".to_string()).len(), 1);
    assert_eq!(store.get_methods_for_type(&"M".to_string()).len(), 2);
}

#[test]
fn updates_are_applied_one_after_the_other() {
    let mut store = DataStore::new();
    let applied = store.apply_updates(vec![
        Update::Remove { id: 1 },
        Update::Add { id: 1, entry: entry("Entry1", Kind::Atom, "M", None, None) },
        Update::Add { id: 2, entry: entry("Entry2", Kind::Atom, "M", None, None) },
        Update::Remove { id: 1 },
        Update::Remove { id: 1 },
    ]);
    assert_eq!(
        applied,
        vec![
            Applied::NothingToRemove(1),
            Applied::Added,
            Applied::Added,
            Applied::Removed,
            Applied::NothingToRemove(1),
        ]
    );
    assert_eq!(store.lookup(1), Err(NoSuchEntry(1)));
    assert_eq!(store.lookup(2).unwrap().name, "Entry2");
    assert_eq!(store.apply_updates(vec![]), Vec::<Applied>::new());
}
