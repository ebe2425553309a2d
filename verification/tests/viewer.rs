use scansector::error::LoadError;
use scansector::model::{Object, Position, System};
use scansector::viewer::{marker_of, Marker, ScanSectorUi};

fn object(planet: bool, mission: bool) -> Object {
    Object {
        name: "x".to_string(),
        planet,
        pos: Position { x: "0".to_string(), y: "0".to_string() },
        mission,
    }
}

fn systems(names: &[&str]) -> Vec<System> {
    names.iter().map(|n| System { name: n.to_string(), objects: Vec::new() }).collect()
}

fn loaded(names: &[&str]) -> ScanSectorUi {
    let mut ui = ScanSectorUi::new();
    ui.finish_load(Ok(systems(names)));
    ui
}

#[test]
fn marker_of_each_kind() {
    assert_eq!(marker_of(&object(true, false)), Marker::Circle);
    assert_eq!(marker_of(&object(true, true)), Marker::Circle);
    assert_eq!(marker_of(&object(false, true)), Marker::Asterisk);
    assert_eq!(marker_of(&object(false, false)), Marker::Cross);
}

#[test]
fn new_state_is_empty() {
    let ui = ScanSectorUi::new();
    assert!(!ui.is_picking());
    assert_eq!(*ui.message(), None);
    assert_eq!(*ui.save(), None);
    assert_eq!(*ui.systems(), Vec::new());
    assert_eq!(ui.filter(), "");
    assert_eq!(ui.selected(), 0);
    assert_eq!(ui.current(), None);
    assert_eq!(ui.visible(), Vec::<usize>::new());
}

#[test]
fn one_picker_at_a_time() {
    let mut ui = ScanSectorUi::new();
    assert!(ui.start_pick());
    assert!(ui.is_picking());
    assert!(!ui.start_pick());
    assert!(ui.is_picking());
    assert_eq!(ui.finish_pick(Some("a.xml".to_string())), Some("a.xml".to_string()));
    assert!(!ui.is_picking());
    assert!(ui.start_pick());
}

#[test]
fn picked_path_is_kept_and_handed_out() {
    let mut ui = ScanSectorUi::new();
    ui.start_pick();
    assert_eq!(ui.finish_pick(Some("saves/campaign.xml".to_string())), Some("saves/campaign.xml".to_string()));
    assert_eq!(*ui.save(), Some("saves/campaign.xml".to_string()));
}

#[test]
fn cancelled_pick_clears_the_path_and_keeps_the_list() {
    let mut ui = loaded(&["A", "B"]);
    ui.start_pick();
    ui.finish_pick(Some("a.xml".to_string()));
    ui.start_pick();
    assert_eq!(ui.finish_pick(None), None);
    assert_eq!(*ui.save(), None);
    assert!(!ui.is_picking());
    assert_eq!(*ui.systems(), systems(&["A", "B"]));
}

#[test]
fn pick_that_was_not_started_changes_nothing() {
    let mut ui = ScanSectorUi::new();
    assert_eq!(ui.finish_pick(Some("a.xml".to_string())), None);
    assert_eq!(*ui.save(), None);
    assert!(!ui.is_picking());
}

#[test]
fn load_replaces_the_list_and_clears_the_message() {
    let mut ui = loaded(&["A"]);
    ui.finish_load(Err(LoadError::Io("gone".to_string())));
    assert_eq!(*ui.message(), Some("gone".to_string()));
    ui.finish_load(Ok(systems(&["B", "C"])));
    assert_eq!(*ui.message(), None);
    assert_eq!(*ui.systems(), systems(&["B", "C"]));
}

#[test]
fn failed_load_keeps_the_list_and_sets_the_message() {
    let mut ui = loaded(&["A", "B", "C"]);
    assert!(ui.select(2));
    ui.finish_load(Err(LoadError::Parse("bad tag at 1:4".to_string())));
    assert_eq!(*ui.message(), Some("bad tag at 1:4".to_string()));
    assert_eq!(*ui.systems(), systems(&["A", "B", "C"]));
    assert_eq!(ui.selected(), 2);
    assert_eq!(ui.current().unwrap().name, "C");
}

#[test]
fn load_of_what_is_not_xml_keeps_the_list() {
    let mut ui = ScanSectorUi::new();
    ui.load(Ok("<save><Sstm bN=\"Kept\"/></save>".to_string()));
    assert_eq!(*ui.systems(), systems(&["Kept"]));
    assert_eq!(*ui.message(), None);
    ui.load(Ok("these bytes are no save".to_string()));
    assert_eq!(*ui.systems(), systems(&["Kept"]));
    assert!(ui.message().is_some());
    assert!(!ui.message().clone().unwrap().is_empty());
    ui.load(Ok("<save><Sstm bN=\"Next\"/></save>".to_string()));
    assert_eq!(*ui.systems(), systems(&["Next"]));
    assert_eq!(*ui.message(), None);
}

#[test]
fn load_of_a_file_that_could_not_be_read() {
    let mut ui = loaded(&["A"]);
    ui.load(Err("permission denied".to_string()));
    assert_eq!(*ui.message(), Some("permission denied".to_string()));
    assert_eq!(*ui.systems(), systems(&["A"]));
}

#[test]
fn load_sorts_the_systems() {
    let mut ui = ScanSectorUi::new();
    ui.load(Ok("<s><Sstm bN=\"Kepler\"/><Sstm bN=\"Alpha\"/><Sstm bN=\"Beta\"/></s>".to_string()));
    assert_eq!(*ui.systems(), systems(&["Alpha", "Beta", "Kepler"]));
}

#[test]
fn selection_is_kept_where_it_fits() {
    let mut ui = loaded(&["A", "B", "C"]);
    assert!(ui.select(1));
    ui.finish_load(Ok(systems(&["X", "Y"])));
    assert_eq!(ui.selected(), 1);
    assert_eq!(ui.current().unwrap().name, "Y");
}

#[test]
fn selection_moves_to_the_last_system_of_a_shorter_list() {
    let mut ui = loaded(&["A", "B", "C", "D"]);
    assert!(ui.select(3));
    ui.finish_load(Ok(systems(&["X", "Y"])));
    assert_eq!(ui.selected(), 1);
    assert_eq!(ui.current().unwrap().name, "Y");
}

#[test]
fn selection_of_an_empty_list() {
    let mut ui = loaded(&["A", "B"]);
    assert!(ui.select(1));
    ui.finish_load(Ok(Vec::new()));
    assert_eq!(ui.selected(), 0);
    assert_eq!(ui.current(), None);
    ui.finish_load(Ok(systems(&["A"])));
    assert_eq!(ui.selected(), 0);
    assert_eq!(ui.current().unwrap().name, "A");
}

#[test]
fn select_takes_a_place_of_the_list_only() {
    let mut ui = loaded(&["A", "B"]);
    assert!(ui.select(1));
    assert!(!ui.select(2));
    assert_eq!(ui.selected(), 1);
    assert!(ui.select(0));
    assert_eq!(ui.selected(), 0);
    let mut empty = ScanSectorUi::new();
    assert!(!empty.select(0));
}

#[test]
fn filter_narrows_the_list_without_regard_to_case() {
    let mut ui = loaded(&["Alpha", "Beta", "Kepler", "alphabet", "ALP", "Calpha"]);
    assert_eq!(ui.visible(), vec![0, 1, 2, 3, 4, 5]);
    ui.set_filter("alp".to_string());
    assert_eq!(ui.filter(), "alp");
    assert_eq!(ui.visible(), vec![0, 3, 4, 5]);
    ui.set_filter("ALPHA".to_string());
    assert_eq!(ui.visible(), vec![0, 3, 5]);
    ui.set_filter("e".to_string());
    assert_eq!(ui.visible(), vec![1, 2, 3]);
    ui.set_filter("zz".to_string());
    assert_eq!(ui.visible(), Vec::<usize>::new());
    ui.set_filter(" ".to_string());
    assert_eq!(ui.visible(), Vec::<usize>::new());
}

#[test]
fn filter_folds_letters_of_other_scripts() {
    let mut ui = loaded(&["\u{c9}toile", "\u{394}elta", "Plain"]);
    ui.set_filter("\u{e9}".to_string());
    assert_eq!(ui.visible(), vec![0]);
    ui.set_filter("\u{3b4}".to_string());
    assert_eq!(ui.visible(), vec![1]);
}

#[test]
fn filter_does_not_move_the_selection() {
    let mut ui = loaded(&["A", "B"]);
    ui.select(1);
    ui.set_filter("a".to_string());
    assert_eq!(ui.selected(), 1);
    assert_eq!(ui.current().unwrap().name, "B");
}

#[test]
fn default_state_is_the_new_state() {
    let ui = ScanSectorUi::default();
    assert!(!ui.is_picking());
    assert_eq!(*ui.message(), None);
    assert_eq!(*ui.save(), None);
    assert!(ui.systems().is_empty());
    assert_eq!(ui.filter(), "");
    assert_eq!(ui.selected(), 0);
}
