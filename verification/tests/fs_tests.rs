use logs::fs::{DirStep, DirTraverse};
use logs::logqueue::find_logs::FsLogFind;

fn fake_children(path: &str) -> Option<Vec<String>> {
    match path {
        "." => Some(vec!["./src".to_string(), "./Cargo.toml".to_string()]),
        "./src" => Some(vec!["./src/lib.rs".to_string(), "./src/log.rs".to_string()]),
        _ => None,
    }
}

fn walk(di: &DirTraverse) -> Vec<String> {
    let mut it = di.walk(fake_children(&di.root).is_some());
    let mut out = vec![];
    loop {
        match it.next_step() {
            DirStep::Done => break,
            DirStep::Visit { path, depth, open } => {
                if open {
                    if let Some(children) = fake_children(&path) {
                        it.push_children(depth, children);
                    }
                }
                out.push(path);
            },
        }
    }
    out
}

#[test]
fn dir_traverse_test() {
    let di = DirTraverse { root: ".".to_string(), recursive: true };

    for path in walk(&di) {
        println!("{path:?}")
    }
}

#[test]
fn dir_walk_order_and_depth() {
    let di = DirTraverse { root: ".".to_string(), recursive: true };
    assert_eq!(walk(&di), vec![".", "./Cargo.toml", "./src", "./src/log.rs", "./src/lib.rs"]);
    let di = DirTraverse { root: ".".to_string(), recursive: false };
    assert_eq!(walk(&di), vec![".", "./Cargo.toml", "./src"]);
    let di = DirTraverse { root: "./Cargo.toml".to_string(), recursive: false };
    assert_eq!(walk(&di), vec!["./Cargo.toml"]);
}

#[test]
fn log_find_test() {
    let fs_log = FsLogFind::new(".", "*log*.rs", true).unwrap();

    for path in walk(&fs_log.traverse()) {
        if fs_log.accepts(&path) {
            println!("{path:?}")
        }
    }
}

#[test]
fn log_find_filters_by_pattern() {
    let fs_log = FsLogFind::new(".", "*log*.rs", true).unwrap();
    let found: Vec<String> = walk(&fs_log.traverse()).into_iter().filter(|p| fs_log.accepts(p)).collect();
    assert_eq!(found, vec!["./src/log.rs"]);
}
