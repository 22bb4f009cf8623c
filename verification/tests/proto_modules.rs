use incite::proto_modules::{plan_proto_files, plan_proto_listing, plan_proto_modules, split_module_path, ModuleOp};

fn bytes(s: &str) -> Vec<u8> {
    s.as_bytes().to_vec()
}

/// Writes the combined file as the generator does, with `contents[i]` for
/// the file with index `i`.
fn render(ops: &[ModuleOp], contents: &[&str]) -> String {
    let mut out = String::new();
    for op in ops {
        match op {
            ModuleOp::Open(n) => out.push_str(&format!("pub mod {} {{\n", String::from_utf8(n.clone()).unwrap())),
            ModuleOp::Close => out.push_str("}\n"),
            ModuleOp::Copy(i) => out.push_str(contents[*i]),
        }
    }
    out
}

/// Every module path declared, in order of declaration.
fn declared_paths(ops: &[ModuleOp]) -> Vec<Vec<Vec<u8>>> {
    let mut open: Vec<Vec<u8>> = Vec::new();
    let mut declared = Vec::new();
    for op in ops {
        match op {
            ModuleOp::Open(n) => {
                open.push(n.clone());
                declared.push(open.clone());
            }
            ModuleOp::Close => {
                open.pop();
            }
            ModuleOp::Copy(_) => {}
        }
    }
    declared
}

#[test]
fn split_stem_at_dots() {
    assert_eq!(split_module_path(b"a.b.c"), vec![bytes("a"), bytes("b"), bytes("c")]);
    assert_eq!(split_module_path(b"bnet"), vec![bytes("bnet")]);
    assert_eq!(split_module_path(b""), vec![bytes("")]);
    assert_eq!(split_module_path(b"a..b"), vec![bytes("a"), bytes(""), bytes("b")]);
}

#[test]
fn nested_file_then_its_parent() {
    // Sorted names: a.b.rs, a.b.x.rs; the last is taken first.
    let ops = plan_proto_files(&vec![bytes("a.b"), bytes("a.b.x")]);
    assert_eq!(render(&ops, &["Y\n", "X\n"]), "pub mod a {\npub mod b {\npub mod x {\nX\n}\nY\n}\n}\n");
}

#[test]
fn sibling_files_share_their_parent() {
    let ops = plan_proto_files(&vec![bytes("a.b"), bytes("a.c")]);
    assert_eq!(render(&ops, &["X\n", "Y\n"]), "pub mod a {\npub mod c {\nY\n}\npub mod b {\nX\n}\n}\n");
}

#[test]
fn no_files_no_output() {
    assert!(plan_proto_files(&vec![]).is_empty());
    assert!(plan_proto_modules(&vec![]).is_empty());
}

#[test]
fn sorted_names_declare_each_module_once() {
    let mut names = vec![
        "bnet.protocol.rs",
        "bnet.protocol.connection.rs",
        "bnet.protocol.game_master.rs",
        "bnet.protocol.authentication.rs",
        "bnet.rs",
        "bnet-x.rs",
        "bnet.protocol-a.rs",
        "other.rs",
        "other.deep.er.rs",
    ];
    names.sort_unstable();
    let stems: Vec<Vec<u8>> = names.iter().map(|n| bytes(&n[..n.len() - 3])).collect();
    let ops = plan_proto_files(&stems);
    let declared = declared_paths(&ops);
    for i in 0..declared.len() {
        for j in i + 1..declared.len() {
            assert_ne!(declared[i], declared[j]);
        }
    }
    let copies = ops.iter().filter(|op| matches!(op, ModuleOp::Copy(_))).count();
    assert_eq!(copies, names.len());
}

#[test]
fn unsorted_paths_reopen_a_module() {
    // Out of order, the shared module is closed and opened again.
    let files = vec![
        vec![bytes("a"), bytes("b")],
        vec![bytes("c")],
        vec![bytes("a"), bytes("d")],
    ];
    let ops = plan_proto_modules(&files);
    let declared = declared_paths(&ops);
    assert_eq!(declared.iter().filter(|p| **p == vec![bytes("a")]).count(), 2);
}

fn path(parts: &[&str]) -> Vec<Vec<u8>> {
    parts.iter().map(|p| bytes(p)).collect()
}

#[test]
fn listing_is_taken_in_path_order() {
    // An unsorted listing of one directory: a.c.rs, a.b.x.rs, a.b.rs.
    let paths = vec![path(&["out", "a.c.rs"]), path(&["out", "a.b.x.rs"]), path(&["out", "a.b.rs"])];
    let stems = vec![bytes("a.c"), bytes("a.b.x"), bytes("a.b")];
    let ops = plan_proto_listing(&paths, &stems);
    assert_eq!(
        render(&ops, &["C\n", "X\n", "B\n"]),
        "pub mod a {\npub mod c {\nC\n}\npub mod b {\npub mod x {\nX\n}\nB\n}\n}\n"
    );
    let declared = declared_paths(&ops);
    for i in 0..declared.len() {
        for j in i + 1..declared.len() {
            assert_ne!(declared[i], declared[j]);
        }
    }
}

#[test]
fn listing_orders_by_names_not_bytes() {
    // "a/b" comes before "a-b/c" name by name ("a" < "a-b"), though '-' < '/'.
    let paths = vec![path(&["a-b", "y.rs"]), path(&["a", "x.rs"])];
    let stems = vec![bytes("y"), bytes("x")];
    let ops = plan_proto_listing(&paths, &stems);
    // Taken from the end of the sorted list: a-b/y.rs first.
    assert_eq!(render(&ops, &["Y\n", "X\n"]), "pub mod y {\nY\n}\npub mod x {\nX\n}\n");
}

#[test]
fn empty_listing() {
    assert!(plan_proto_listing(&vec![], &vec![]).is_empty());
}
