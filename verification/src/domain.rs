//! The project domain: a project path and the audio hierarchy kept below it.
//! The filesystem work of bootstrapping and persisting lives with the
//! caller; the domain holds the tree, derives the audio path, decides the
//! all-or-nothing merge with what was loaded, and plans the saving writes.
use crate::containers::Readonly;
use crate::hierarchy::{ops_view, save_ops, Node, SaveOp};
use crate::text::path_join;
use vstd::prelude::*;

verus! {

/// A project domain: the root path and the audio hierarchy below it.
#[derive(Debug, PartialEq)]
pub struct Domain {
    project_path: Readonly<String>,
    audio: Node,
}

impl Domain {
    /// The project's root path.
    pub closed spec fn spec_project_path(&self) -> String {
        self.project_path.spec_item()
    }

    /// The audio hierarchy.
    pub closed spec fn spec_audio(&self) -> Node {
        self.audio
    }

    /// Creates a domain over a project path, holding the given audio tree.
    pub fn new(project_path: String, audio: Node) -> (r: Domain)
        ensures
            r.spec_project_path() == project_path,
            r.spec_audio() == audio,
    {
        Domain { project_path: Readonly::new(project_path), audio }
    }

    /// The audio folder's path under the project root.
    pub fn audio_path(&self) -> (r: String)
        ensures
            r@ == self.spec_project_path()@ + seq!['/'] + "audio"@,
    {
        path_join(self.project_path.item().as_str(), "audio")
    }

    /// The audio hierarchy.
    pub fn audio(&self) -> (r: &Node)
        ensures
            *r == self.spec_audio(),
    {
        &self.audio
    }

    /// The all-or-nothing merge at the bootstrap boundary: a nonempty loaded
    /// tree replaces the default audio tree wholesale; an empty load keeps
    /// the default. The two are never combined field by field.
    pub fn adopt_loaded(&mut self, loaded: Node)
        ensures
            final(self).spec_project_path() == old(self).spec_project_path(),
            final(self).spec_audio() == if loaded.children@.len() == 0 {
                old(self).spec_audio()
            } else {
                loaded
            },
    {
        if !loaded.is_empty() {
            self.audio = loaded;
        }
    }

    /// Saves the domain: the writes that persist the audio hierarchy.
    pub fn save(&self) -> (r: Vec<SaveOp>)
        ensures
            ops_view(r@) == save_ops(self.spec_audio()),
    {
        self.audio.save_plan()
    }
}

} // verus!
