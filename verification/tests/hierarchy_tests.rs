use sample_scaffold::hierarchy::{DirSnapshot, Node, SaveOp};

fn empty_dir(name: &str) -> DirSnapshot {
    DirSnapshot { name: String::from(name), description: None, subdirs: vec![] }
}

/// Rebuilds the directory snapshot at `dir` that applying the save plan to an
/// empty filesystem would leave behind.
fn snapshot_from_plan(ops: &[SaveOp], dir: &str) -> DirSnapshot {
    let name = String::from(dir.rsplit('/').next().unwrap());
    let desc_file = format!("{}/{}_description.txt", dir, name);
    let description = ops.iter().find(|op| op.file == desc_file).map(|op| op.contents.clone());
    let mut subdirs = vec![];
    for op in ops.iter() {
        if let Some(rest) = op.dir.strip_prefix(&format!("{}/", dir)) {
            if !rest.is_empty() && !rest.contains('/') {
                subdirs.push(snapshot_from_plan(ops, &op.dir));
            }
        }
    }
    DirSnapshot { name, description, subdirs }
}

#[test]
fn new_node_has_title_as_path_and_no_children() {
    let n = Node::new("audio", "samples");
    assert_eq!(n.path, "audio");
    assert_eq!(n.title, "audio");
    assert_eq!(n.description, "samples");
    assert!(n.is_empty());
}

#[test]
fn push_appends_without_sorting() {
    let mut n = Node::new("root", "");
    n.push(Node::new("b", ""));
    n.push(Node::new("a", ""));
    assert!(!n.is_empty());
    assert_eq!(n.children.len(), 2);
    assert_eq!(n.children[0].title, "b");
    assert_eq!(n.children[1].title, "a");
}

#[test]
fn sort_children_orders_by_title() {
    let mut n = Node::new("root", "");
    n.push(Node::new("b", "second"));
    n.push(Node::new("a", "first"));
    n.sort_children();
    assert_eq!(n.children[0].title, "a");
    assert_eq!(n.children[0].description, "first");
    assert_eq!(n.children[1].title, "b");
}

#[test]
fn load_of_empty_directory_is_empty_with_placeholder_description() {
    let n = Node::load(&String::from("root/music"), &empty_dir("music"));
    assert!(n.is_empty());
    assert_eq!(n.description, "Empty description");
    assert_eq!(n.title, "music");
    assert_eq!(n.path, "root/music");
}

#[test]
fn load_sorts_children_regardless_of_enumeration_order() {
    let snap = DirSnapshot {
        name: String::from("root"),
        description: None,
        subdirs: vec![empty_dir("b"), empty_dir("a")],
    };
    let n = Node::load(&String::from("base/root"), &snap);
    assert_eq!(n.children.len(), 2);
    assert_eq!(n.children[0].title, "a");
    assert_eq!(n.children[1].title, "b");
    assert_eq!(n.children[0].path, "base/root/a");
    assert_eq!(n.children[1].path, "base/root/b");
}

#[test]
fn load_trims_the_description_file() {
    let snap = DirSnapshot {
        name: String::from("kd"),
        description: Some(String::from("  Kick drum \n")),
        subdirs: vec![],
    };
    let n = Node::load(&String::from("proj/kd"), &snap);
    assert_eq!(n.description, "Kick drum");
}

#[test]
fn rebuild_path_derives_every_descendant_path() {
    let mut kd = Node::new("kd", "Kick drum");
    kd.push(Node::new("808", "Low kicks"));
    let mut x = Node::new("x", "");
    x.push(kd);
    x.rebuild_path(Some(String::from("/tmp/proj")));
    assert_eq!(x.path, "/tmp/proj/x");
    assert_eq!(x.children[0].path, "/tmp/proj/x/kd");
    assert_eq!(x.children[0].children[0].path, "/tmp/proj/x/kd/808");
}

#[test]
fn rebuild_path_without_ancestor_keeps_the_root_path() {
    let mut n = Node::new("audio", "");
    n.push(Node::new("loops", ""));
    n.path = String::from("keep/me");
    n.rebuild_path(None);
    assert_eq!(n.path, "keep/me");
    assert_eq!(n.children[0].path, "keep/me/loops");
}

#[test]
fn description_path_is_a_title_named_file_inside_the_directory() {
    let n = Node::new("t", "d");
    assert_eq!(n.description_path(&String::from("p")), "p/t_description.txt");
}

#[test]
fn save_plan_lists_directories_and_description_files_in_order() {
    let mut audio = Node::new("audio", "root desc");
    audio.push(Node::new("kd", "Kick drum"));
    audio.rebuild_path(Some(String::from("proj")));
    let plan = audio.save_plan();
    assert_eq!(plan.len(), 2);
    assert_eq!(plan[0].dir, "proj/audio");
    assert_eq!(plan[0].file, "proj/audio/audio_description.txt");
    assert_eq!(plan[0].contents, "root desc");
    assert_eq!(plan[1].dir, "proj/audio/kd");
    assert_eq!(plan[1].file, "proj/audio/kd/kd_description.txt");
    assert_eq!(plan[1].contents, "Kick drum");
}

#[test]
fn save_then_load_round_trips_the_tree() {
    let mut p = Node::new("audio", "desc");
    p.push(Node::new("kd", "Kick drum"));
    p.rebuild_path(Some(String::from("/tmp/proj")));
    let plan = p.save_plan();
    let snap = snapshot_from_plan(&plan, "/tmp/proj/audio");
    let loaded = Node::load(&String::from("/tmp/proj/audio"), &snap);
    assert_eq!(loaded.title, "audio");
    assert_eq!(loaded.description, "desc");
    assert_eq!(loaded.children.len(), 1);
    assert_eq!(loaded.children[0].title, "kd");
    assert_eq!(loaded.children[0].description, "Kick drum");
    assert_eq!(loaded.children[0].path, "/tmp/proj/audio/kd");
}
