use recon::registry::{Engine, GetError, Module, ModuleFile};

fn file(author: &str, filename: &str, code: &str) -> ModuleFile {
    ModuleFile {
        author: author.to_string(),
        filename: filename.to_string(),
        code: code.to_string(),
    }
}

const GOOD: &str = "-- Description: probes names\n-- Version: 0.3\nfunction run() end\n";
const WITH_ARG: &str =
    "-- Description: walks certs\n-- Version: 1.0\n-- Argument: domains\nfunction run(arg) end\n";

#[test]
fn module_load_reads_the_header() {
    let m = Module::load("kpcyrd", "dns-brute", GOOD).unwrap();
    assert_eq!(m.name(), "dns-brute");
    assert_eq!(m.author(), "kpcyrd");
    assert_eq!(m.description(), "probes names");
    assert_eq!(m.version(), "0.3");
    assert!(m.argument().is_none());
    assert_eq!(m.canonical(), "kpcyrd/dns-brute");
    assert_eq!(m.script(), GOOD);
}

#[test]
fn module_load_reads_the_argument() {
    let m = Module::load("kpcyrd", "ctlogs", WITH_ARG).unwrap();
    assert_eq!(m.argument().as_deref(), Some("domains"));
}

#[test]
fn module_load_requires_description_and_version() {
    assert!(Module::load("a", "x", "-- Description: d\nfunction run() end\n").is_err());
    assert!(Module::load("a", "x", "-- Version: 1\nfunction run() end\n").is_err());
    assert!(Module::load("a", "x", "function run() end\n").is_err());
    let e = Module::load("a", "x", "-- Licence: MIT\n").unwrap_err();
    assert_eq!(e.author, "a");
    assert_eq!(e.module, "x");
}

#[test]
fn reload_skips_files_without_the_extension() {
    let files = vec![
        file("a", "one.lua", GOOD),
        file("a", "notes.txt", "anything"),
        file("b", "two.lua", GOOD),
    ];
    let engine = Engine::new(&files).unwrap();
    assert_eq!(engine.list().len(), 2);
}

#[test]
fn reload_is_atomic() {
    let files = vec![file("a", "one.lua", GOOD)];
    let mut engine = Engine::new(&files).unwrap();
    let bad = vec![file("a", "one.lua", GOOD), file("b", "broken.lua", "-- nothing\n")];
    assert!(engine.reload_modules(&bad).is_err());
    // the failed reload left the old registry in place
    assert_eq!(engine.list().len(), 1);
    assert_eq!(engine.get("a/one").unwrap().canonical(), "a/one");
}

// Registry determinism: the canonical form always resolves, the short
// form is ambiguous exactly when two authors ship the name.
#[test]
fn get_resolves_and_detects_ambiguity() {
    let files = vec![
        file("alice", "probe.lua", GOOD),
        file("bob", "probe.lua", GOOD),
        file("bob", "walk.lua", WITH_ARG),
    ];
    let engine = Engine::new(&files).unwrap();
    assert_eq!(engine.get("alice/probe").unwrap().author(), "alice");
    assert_eq!(engine.get("bob/probe").unwrap().author(), "bob");
    assert_eq!(engine.get("probe").unwrap_err(), GetError::Ambiguous);
    assert_eq!(engine.get("walk").unwrap().author(), "bob");
    assert_eq!(engine.get("nothing").unwrap_err(), GetError::NotFound);
}

#[test]
fn list_enumerates_every_module_once() {
    let files = vec![file("alice", "probe.lua", GOOD), file("bob", "probe.lua", GOOD)];
    let engine = Engine::new(&files).unwrap();
    let all = engine.list();
    assert_eq!(all.len(), 2);
    assert_ne!(all[0].canonical(), all[1].canonical());
}

#[test]
fn variants_lists_only_unambiguous_references() {
    let files = vec![
        file("alice", "probe.lua", GOOD),
        file("bob", "probe.lua", GOOD),
        file("bob", "walk.lua", WITH_ARG),
    ];
    let engine = Engine::new(&files).unwrap();
    let vs = engine.variants();
    assert!(vs.contains(&"alice/probe".to_string()));
    assert!(vs.contains(&"bob/probe".to_string()));
    assert!(vs.contains(&"bob/walk".to_string()));
    assert!(vs.contains(&"walk".to_string()));
    assert!(!vs.contains(&"probe".to_string()));
}

#[test]
fn duplicate_modules_fail_the_reload() {
    let files = vec![file("a", "one.lua", GOOD), file("a", "one.lua", GOOD)];
    assert!(Engine::new(&files).is_err());
}
