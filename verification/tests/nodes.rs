use activation_manager::dconf::{dconf_node as dconf_whole_key_node, DconfNode};
use activation_manager::exec::activation_plan;
use activation_manager::exec_node::{lua_to_exec, ExecFields, ExecNode};
use activation_manager::gsettings::{dconf_node, parse_schema_listing, split_key, DconfFields, GsettingsNode};
use activation_manager::lua::{entry_verdict, Conversion, KeyText, Verdict};
use activation_manager::node::{
    file_from_lua, file_node_id, ExecError, FileFields, FileNodeKind, FileStep, IdGenerator, MetadataFields,
    NodeKind, NodeMetadata,
};

fn strings(v: &[&str]) -> Vec<String> {
    v.iter().map(|s| s.to_string()).collect()
}

fn no_fields() -> MetadataFields {
    MetadataFields { before: None, after: None, description: None }
}

#[test]
fn ids_count_up_from_one() {
    let mut ids = IdGenerator::new();
    assert_eq!(ids.get_next(), "node-internal-1");
    assert_eq!(ids.get_next(), "node-internal-2");
    assert_eq!(ids.issued(), 2);
}

#[test]
fn metadata_defaults_to_empty_lists() {
    let mut ids = IdGenerator::new();
    let meta = NodeMetadata::from_table(no_fields(), &mut ids);
    assert_eq!(meta.id, "node-internal-1");
    assert!(meta.before.is_empty());
    assert!(meta.after.is_empty());
    assert_eq!(meta.description, None);
    let fields = MetadataFields {
        before: Some(strings(&["x"])),
        after: Some(strings(&["y", "z"])),
        description: Some("d".to_string()),
    };
    let meta = NodeMetadata::from_table(fields, &mut ids);
    assert_eq!(meta.id, "node-internal-2");
    assert_eq!(meta.before, strings(&["x"]));
    assert_eq!(meta.after, strings(&["y", "z"]));
    assert_eq!(meta.description, Some("d".to_string()));
}

#[test]
fn file_node_gets_default_description() {
    let mut ids = IdGenerator::new();
    let fields = FileFields {
        link: "/home/u/.config/foo".to_string(),
        target: "/nix/store/bar".to_string(),
        id: None,
        meta: no_fields(),
    };
    let node = file_from_lua(fields, &mut ids);
    assert_eq!(node.meta.id, "node-internal-1");
    assert_eq!(node.meta.description, Some("Symlink /home/u/.config/foo -> /nix/store/bar".to_string()));
    match node.kind {
        NodeKind::File(FileNodeKind { link, target }) => {
            assert_eq!(link, "/home/u/.config/foo");
            assert_eq!(target, "/nix/store/bar");
        }
        other => panic!("unexpected kind {:?}", other),
    }
}

#[test]
fn file_node_keeps_given_description() {
    let mut ids = IdGenerator::new();
    let fields = FileFields {
        link: "l".to_string(),
        target: "t".to_string(),
        id: Some("mine".to_string()),
        meta: MetadataFields { before: None, after: None, description: Some("custom".to_string()) },
    };
    let node = file_from_lua(fields, &mut ids);
    assert_eq!(node.meta.description, Some("custom".to_string()));
    assert_eq!(node.meta.id, "node-internal-1");
}

#[test]
fn file_node_id_is_given_or_digest() {
    let given = file_node_id(&"l".to_string(), &"t".to_string(), &Some("mine".to_string()));
    assert_eq!(given, "mine");
    // SHA-256 of "abc", split as link "a" and target "bc".
    let derived = file_node_id(&"a".to_string(), &"bc".to_string(), &None);
    assert_eq!(derived, "node-ba7816bf8f01cfea414140de5dae2223b00361a396177a9cb410ff61f20015ad");
}

#[test]
fn file_steps_remove_create_link() {
    let kind = FileNodeKind { link: "/tmp/dir/link".to_string(), target: "/etc/hosts".to_string() };
    assert_eq!(
        kind.steps(true),
        vec![
            FileStep::RemoveLink("/tmp/dir/link".to_string()),
            FileStep::CreateDir("/tmp/dir".to_string()),
            FileStep::Link { target: "/etc/hosts".to_string(), link: "/tmp/dir/link".to_string() },
        ]
    );
    assert_eq!(
        kind.steps(false),
        vec![
            FileStep::CreateDir("/tmp/dir".to_string()),
            FileStep::Link { target: "/etc/hosts".to_string(), link: "/tmp/dir/link".to_string() },
        ]
    );
    let relative = FileNodeKind { link: "foo".to_string(), target: "bar".to_string() };
    assert_eq!(relative.steps(false)[0], FileStep::CreateDir("".to_string()));
}

#[test]
fn file_steps_fail_without_parent() {
    let root = FileNodeKind { link: "/".to_string(), target: "x".to_string() };
    assert_eq!(root.steps(false), vec![FileStep::Fail(ExecError::NoParent)]);
    assert_eq!(
        root.steps(true),
        vec![FileStep::RemoveLink("/".to_string()), FileStep::Fail(ExecError::NoParent)]
    );
    assert_eq!(ExecError::NoParent.message(), "Failed to get parent");
}

#[test]
fn exec_node_description_joins_command() {
    let mut ids = IdGenerator::new();
    let node = lua_to_exec(ExecFields { command: strings(&["echo", "hi", "there"]), meta: no_fields() }, &mut ids);
    assert_eq!(node.meta.description, Some("echo hi there".to_string()));
    match &node.kind {
        NodeKind::Exec(e) => {
            let (program, args) = e.invocation();
            assert_eq!(program, "echo");
            assert_eq!(args, strings(&["hi", "there"]));
        }
        other => panic!("unexpected kind {:?}", other),
    }
}

#[test]
fn exec_node_outcome() {
    let e = ExecNode { command: strings(&["true"]) };
    assert_eq!(e.outcome(true), Ok(()));
    assert_eq!(e.outcome(false), Err(ExecError::ExecFailed));
    assert_eq!(ExecError::ExecFailed.message(), "Failed to execute command!");
    let (program, args) = e.invocation();
    assert_eq!(program, "true");
    assert!(args.is_empty());
}

#[test]
fn dconf_key_splits_into_schema_and_key() {
    let (schema, key) = split_key("/org/gnome/desktop/interface/color-scheme");
    assert_eq!(schema, strings(&["org", "gnome", "desktop", "interface"]));
    assert_eq!(key, "color-scheme");
    let (schema, key) = split_key("/top");
    assert!(schema.is_empty());
    assert_eq!(key, "top");
}

#[test]
fn gsettings_node_from_dconf_table() {
    let mut ids = IdGenerator::new();
    let fields = DconfFields {
        key: "/org/gnome/desktop/interface/color-scheme".to_string(),
        value: "'prefer-dark'".to_string(),
        before: Some(strings(&["b"])),
        after: None,
    };
    let node = dconf_node(fields, &mut ids);
    assert_eq!(
        node.meta.description,
        Some("/org/gnome/desktop/interface/color-scheme => 'prefer-dark'".to_string())
    );
    assert_eq!(node.meta.before, strings(&["b"]));
    assert!(node.meta.after.is_empty());
    match &node.kind {
        NodeKind::Gsettings(g) => {
            assert_eq!(
                g.set_args(),
                strings(&["set", "org.gnome.desktop.interface", "color-scheme", "'prefer-dark'"])
            );
            assert_eq!(g.outcome(false), Err(ExecError::CommandFailed));
        }
        other => panic!("unexpected kind {:?}", other),
    }
}

#[test]
fn gsettings_set_args() {
    let g = GsettingsNode { schema: strings(&["a", "b"]), key: "k".to_string(), value: "v".to_string() };
    assert_eq!(g.set_args(), strings(&["set", "a.b", "k", "v"]));
    assert_eq!(g.outcome(true), Ok(()));
    assert_eq!(ExecError::CommandFailed.message(), "Command failed");
}

#[test]
fn schema_listing_pairs() {
    let listing = "org.gnome.a /org/gnome/a/\norg.gnome.b  /x\r\n";
    assert_eq!(
        parse_schema_listing(listing),
        vec![
            ("org.gnome.a".to_string(), "/org/gnome/a/".to_string()),
            ("org.gnome.b".to_string(), " /x".to_string()),
        ]
    );
    assert!(parse_schema_listing("").is_empty());
}

#[test]
fn dconf_node_keeps_key_whole() {
    let fields = DconfFields { key: "/a/b/c".to_string(), value: "1".to_string(), before: None, after: None };
    let node = dconf_whole_key_node(fields);
    assert_eq!(node.meta.id, "FIXME");
    assert_eq!(node.meta.description, Some("/a/b/c \u{21d2}  1".to_string()));
    match &node.kind {
        NodeKind::Dconf(d) => {
            assert_eq!(d.key, "/a/b/c");
            assert_eq!(d.set_args(), strings(&["set", "a.b", "c", "1"]));
            assert_eq!(d.outcome(false), Err(ExecError::CommandFailed));
        }
        other => panic!("unexpected kind {:?}", other),
    }
    let d = DconfNode { key: "/k".to_string(), value: "v".to_string() };
    assert_eq!(d.set_args(), strings(&["set", "", "k", "v"]));
}

#[test]
fn plan_announces_and_runs_unless_dry() {
    let mut ids = IdGenerator::new();
    let a = lua_to_exec(ExecFields { command: strings(&["true"]), meta: no_fields() }, &mut ids);
    let b = dconf_whole_key_node(DconfFields { key: "/x/y".to_string(), value: "2".to_string(), before: None, after: None });
    let nodes = vec![a, b];
    let plan = activation_plan(&nodes, false);
    assert_eq!(plan.len(), 2);
    assert_eq!(plan[0].description, Some("true".to_string()));
    assert!(plan[0].execute && plan[1].execute);
    let dry = activation_plan(&nodes, true);
    assert!(!dry[0].execute && !dry[1].execute);
    assert!(activation_plan(&Vec::new(), false).is_empty());
}

#[test]
fn verdicts_by_name() {
    let text = KeyText::Text("link".to_string());
    assert_eq!(entry_verdict(Some("link"), &text, Conversion::Converted), Verdict::Take);
    assert_eq!(entry_verdict(Some("other"), &text, Conversion::Converted), Verdict::Skip);
    assert_eq!(entry_verdict(Some("link"), &text, Conversion::Mismatch), Verdict::Skip);
    assert_eq!(entry_verdict(Some("link"), &text, Conversion::Failed), Verdict::Skip);
    assert_eq!(entry_verdict(Some("link"), &KeyText::Unreadable, Conversion::Converted), Verdict::Fail);
    assert_eq!(entry_verdict(Some("link"), &KeyText::NotText, Conversion::Converted), Verdict::Skip);
}

#[test]
fn verdicts_without_name() {
    assert_eq!(entry_verdict(None, &KeyText::Position, Conversion::Converted), Verdict::Take);
    assert_eq!(entry_verdict(None, &KeyText::Position, Conversion::Mismatch), Verdict::Skip);
    assert_eq!(entry_verdict(None, &KeyText::Position, Conversion::Failed), Verdict::Fail);
    assert_eq!(entry_verdict(None, &KeyText::NotText, Conversion::Converted), Verdict::Skip);
    assert_eq!(entry_verdict(None, &KeyText::Text("a".to_string()), Conversion::Failed), Verdict::Fail);
    assert_eq!(entry_verdict(None, &KeyText::NotText, Conversion::Failed), Verdict::Fail);
    assert_eq!(entry_verdict(None, &KeyText::Text("a".to_string()), Conversion::Mismatch), Verdict::Skip);
}

#[test]
fn named_values_are_not_unnamed() {
    // The table `{foo = 5}` holds no unnamed value: nothing is taken.
    assert_eq!(entry_verdict(None, &KeyText::Text("foo".to_string()), Conversion::Converted), Verdict::Skip);
    assert_eq!(entry_verdict(Some("foo"), &KeyText::Text("foo".to_string()), Conversion::Converted), Verdict::Take);
}

#[test]
fn ids_never_repeat() {
    let mut ids = IdGenerator::new();
    let mut seen = std::collections::HashSet::new();
    for _ in 0..1000 {
        assert!(seen.insert(ids.get_next()));
    }
    assert_eq!(ids.issued(), 1000);
}

#[test]
fn dconf_key_rejoins() {
    for key in ["/a", "/a/b/c", "//x/", "/org/gnome/desktop/interface/color-scheme"] {
        let (mut parts, name) = split_key(key);
        parts.push(name);
        assert_eq!(format!("/{}", parts.join("/")), key);
    }
}

#[test]
fn ids_count_up() {
    let mut ids = IdGenerator::new();
    let mut last = 0u64;
    for _ in 0..200 {
        let id = ids.get_next();
        let n: u64 = id.strip_prefix("node-internal-").unwrap().parse().unwrap();
        assert_eq!(n, last + 1);
        last = n;
    }
}
