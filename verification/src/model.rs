//! The static configuration of the monitor: which projects are watched, where
//! their files and their recorded history live, and the marker files through
//! which an operator signals a pause or a generation pass.
use vstd::prelude::*;
use vstd::string::*;

verus! {

/// The set of watched projects and the root folder that holds their histories.
pub struct Model {
    pub path_history: String,
    pub projects: Vec<Project>,
}

/// One watched project: its root folder, the subfolders scanned within it,
/// where its summary is persisted, and how many seconds lie between scans.
pub struct Project {
    pub name: String,
    pub path_root: String,
    pub path_history: String,
    pub subfolders: Vec<String>,
    pub interval_seconds: u64,
}

/// Operator signals left as marker files in a project's history folder.
pub enum Marker {
    Gen,
    Pause,
}

impl Model {
    pub open spec fn wf(&self) -> bool {
        forall|i: int, j: int|
            0 <= i < j < self.projects@.len() ==> self.projects@[i].name@ != self.projects@[j].name@
    }

    pub fn new(path_history: &str) -> (r: Self)
        ensures
            r.path_history@ == path_history@,
            r.projects@.len() == 0,
            r.wf(),
    {
        Model { path_history: path_history.to_owned(), projects: Vec::new() }
    }

    /// Adds a project under a name not registered yet.
    pub fn add_project(&mut self, project: Project)
        requires
            old(self).wf(),
            forall|i: int|
                0 <= i < old(self).projects@.len()
                    ==> (#[trigger] old(self).projects@[i]).name@ != project.name@,
        ensures
            final(self).wf(),
            final(self).projects@ == old(self).projects@.push(project),
            final(self).path_history == old(self).path_history,
    {
        self.projects.push(project);
    }

    /// Whether a project of this name is registered.
    pub fn contains_project(&self, name: &str) -> (r: bool)
        ensures
            r == exists|i: int|
                0 <= i < self.projects@.len() && (#[trigger] self.projects@[i]).name@ == name@,
    {
        let mut i: usize = 0;
        while i < self.projects.len()
            invariant
                i <= self.projects@.len(),
                forall|j: int| 0 <= j < i ==> (#[trigger] self.projects@[j]).name@ != name@,
            decreases self.projects@.len() - i,
        {
            if crate::order::str_eq(self.projects[i].name.as_str(), name) {
                return true;
            }
            i = i + 1;
        }
        false
    }
}

impl Project {
    pub fn new(
        name: &str,
        path_root: &str,
        path_history: &str,
        subfolders: Vec<String>,
        interval_seconds: u64,
    ) -> (r: Self)
        ensures
            r.name@ == name@,
            r.path_root@ == path_root@,
            r.path_history@ == path_history@,
            r.subfolders == subfolders,
            r.interval_seconds == interval_seconds,
    {
        Project {
            name: name.to_owned(),
            path_root: path_root.to_owned(),
            path_history: path_history.to_owned(),
            subfolders,
            interval_seconds,
        }
    }

    /// The path of the marker file through which the given signal is set for
    /// this project.
    pub fn get_marker_file_name(&self, marker: &Marker) -> (r: String)
        ensures
            r@ == self.path_history@ + "/"@ + marker.file_name_spec(),
    {
        let mut s = self.path_history.clone();
        s.append("/");
        s.append(marker.get_file_name());
        s
    }
}

impl Marker {
    pub open spec fn file_name_spec(&self) -> Seq<char> {
        match self {
            Marker::Gen => "gen_marker.txt"@,
            Marker::Pause => "pause_marker.txt"@,
        }
    }

    /// The file name under which this marker is looked for.
    pub fn get_file_name(&self) -> (r: &str)
        ensures
            r@ == self.file_name_spec(),
    {
        match self {
            Marker::Gen => "gen_marker.txt",
            Marker::Pause => "pause_marker.txt",
        }
    }
}

/// The one configuration this monitor ships with: the wiki page tree, scanned
/// in its two tool subfolders.
pub fn set_up_project(project_name: &str, interval_seconds: u64) -> (r: Project)
    requires
        project_name@ == "DokuWiki"@,
    ensures
        r.name@ == "DokuWiki"@,
        r.path_root@ == "C:/Doku/DokuWikiStick/dokuwiki/data/pages"@,
        r.path_history@ == "C:/File Monitor History/DokuWiki"@,
        r.subfolders@.len() == 2,
        r.subfolders@[0]@ == "tools"@,
        r.subfolders@[1]@ == "tools/nav"@,
        r.interval_seconds == interval_seconds,
{
    let mut subfolders: Vec<String> = Vec::new();
    subfolders.push(String::from_str("tools"));
    subfolders.push(String::from_str("tools/nav"));
    Project::new(
        "DokuWiki",
        "C:/Doku/DokuWikiStick/dokuwiki/data/pages",
        "C:/File Monitor History/DokuWiki",
        subfolders,
        interval_seconds,
    )
}

/// A model holding the shipped configuration.
pub fn set_up_model(interval_seconds: u64) -> (r: Model)
    ensures
        r.wf(),
        r.path_history@ == "C:/File Monitor History"@,
        r.projects@.len() == 1,
        r.projects@[0].name@ == "DokuWiki"@,
        r.projects@[0].interval_seconds == interval_seconds,
{
    let mut model = Model::new("C:/File Monitor History");
    let project = set_up_project("DokuWiki", interval_seconds);
    model.add_project(project);
    model
}

} // verus!
