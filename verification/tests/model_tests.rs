use file_monitor::history::History;
use file_monitor::model::Marker;
use file_monitor::model::Model;
use file_monitor::model::Project;
use file_monitor::model::set_up_model;
use file_monitor::model::set_up_project;

#[test]
fn marker_file_names() {
    assert_eq!(Marker::Gen.get_file_name(), "gen_marker.txt");
    assert_eq!(Marker::Pause.get_file_name(), "pause_marker.txt");
}

#[test]
fn marker_path_sits_in_the_history_folder() {
    let project = Project::new("Docs", "/data/docs", "/history/Docs", vec![], 300);
    assert_eq!(project.get_marker_file_name(&Marker::Pause), "/history/Docs/pause_marker.txt");
    assert_eq!(project.get_marker_file_name(&Marker::Gen), "/history/Docs/gen_marker.txt");
}

#[test]
fn model_registers_projects_by_name() {
    let mut model = Model::new("/history");
    assert!(!model.contains_project("Docs"));
    model.add_project(Project::new("Docs", "/data/docs", "/history/Docs", vec![], 300));
    assert!(model.contains_project("Docs"));
    assert!(!model.contains_project("Other"));
    assert_eq!(model.projects.len(), 1);
    assert_eq!(model.path_history, "/history");
}

#[test]
fn the_shipped_configuration() {
    let project = set_up_project("DokuWiki", 1800);
    assert_eq!(project.name, "DokuWiki");
    assert_eq!(project.path_root, "C:/Doku/DokuWikiStick/dokuwiki/data/pages");
    assert_eq!(project.path_history, "C:/File Monitor History/DokuWiki");
    assert_eq!(project.subfolders, vec!["tools".to_string(), "tools/nav".to_string()]);
    assert_eq!(project.interval_seconds, 1800);

    let model = set_up_model(1800);
    assert_eq!(model.path_history, "C:/File Monitor History");
    assert_eq!(model.projects.len(), 1);
    assert_eq!(model.projects[0].name, "DokuWiki");
}

#[test]
fn history_reads_empty() {
    let h = History::read();
    assert_eq!(h.scans.len(), 0);
}
