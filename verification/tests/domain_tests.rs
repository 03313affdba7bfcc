use sample_scaffold::containers::Readonly;
use sample_scaffold::domain::Domain;
use sample_scaffold::hierarchy::Node;

#[test]
fn readonly_hands_out_what_was_wrapped() {
    let r = Readonly::new(41);
    assert_eq!(*r.item(), 41);
    let s = Readonly::new(String::from("proj"));
    assert_eq!(s.item(), "proj");
}

#[test]
fn audio_path_is_the_audio_folder_under_the_project_root() {
    let d = Domain::new(String::from("project"), Node::new("audio", ""));
    assert_eq!(d.audio_path(), "project/audio");
}

#[test]
fn adopt_loaded_keeps_the_default_when_nothing_was_found() {
    let mut default_audio = Node::new("audio", "default");
    default_audio.push(Node::new("one-shot", ""));
    let mut d = Domain::new(String::from("project"), default_audio);
    d.adopt_loaded(Node::new("audio", "loaded but empty"));
    assert_eq!(d.audio().description, "default");
    assert_eq!(d.audio().children.len(), 1);
}

#[test]
fn adopt_loaded_replaces_the_default_wholesale() {
    let mut default_audio = Node::new("audio", "default");
    default_audio.push(Node::new("one-shot", ""));
    let mut d = Domain::new(String::from("project"), default_audio);
    let mut loaded = Node::new("audio", "from disk");
    loaded.push(Node::new("loops", ""));
    loaded.push(Node::new("kd", ""));
    d.adopt_loaded(loaded);
    assert_eq!(d.audio().description, "from disk");
    assert_eq!(d.audio().children.len(), 2);
}

#[test]
fn domain_save_plans_the_audio_subtree() {
    let mut audio = Node::new("audio", "a");
    audio.rebuild_path(Some(String::from("project")));
    let d = Domain::new(String::from("project"), audio);
    let plan = d.save();
    assert_eq!(plan.len(), 1);
    assert_eq!(plan[0].dir, "project/audio");
    assert_eq!(plan[0].file, "project/audio/audio_description.txt");
    assert_eq!(plan[0].contents, "a");
}
