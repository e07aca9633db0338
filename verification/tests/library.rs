use logsim::bits::TruthTable;
use logsim::presets::{
    and_gate_preset, default_presets, match_level_lower, not_gate_preset, str_match_level, Change, CombGatePreset,
    DevicePreset, Library, PresetData, PresetSource, Presets,
};

fn gate(name: &str, cat: &str) -> DevicePreset {
    DevicePreset {
        name: name.to_owned(),
        cat: cat.to_owned(),
        color: [1, 2, 3, 4],
        data: PresetData::CombGate(CombGatePreset {
            inputs: vec![String::new()],
            outputs: vec![String::new()],
            table: TruthTable { num_inputs: 1, num_outputs: 1, map: vec![1, 0] },
        }),
        src: PresetSource::Default,
    }
}

fn names(v: &[(String, Change)]) -> Vec<String> {
    v.iter().map(|(n, _)| n.clone()).collect()
}

#[test]
fn match_levels() {
    assert_eq!(str_match_level("And", "and"), 200);
    assert_eq!(str_match_level("Andy", "AN"), 100);
    assert_eq!(str_match_level("Band", "an"), 50);
    assert_eq!(str_match_level("Or", "x"), 0);
    assert_eq!(str_match_level("", ""), 200);
    assert_eq!(match_level_lower("nand", "and"), 50);
    assert_eq!(match_level_lower("nand", "nand"), 200);
}

#[test]
fn new_library_holds_the_defaults() {
    let lib = Library::new();
    assert_eq!(lib.preset_names(), vec!["And".to_string(), "Not".to_string()]);
    assert_eq!(lib.cat_names(), vec!["Basic".to_string()]);
    assert_eq!(lib.get_preset_idx("Not"), Some(1));
    assert_eq!(lib.get_preset_idx("Xor"), None);
    let and = lib.get_preset("And").unwrap();
    assert_eq!(and.color, [255, 0, 0, 255]);
    assert_eq!(and.data.num_inputs(), 2);
    assert_eq!(and.data.num_outputs(), 1);
    assert_eq!(default_presets().len(), 2);
    let d = Library::default();
    assert_eq!(d.preset_names().len(), 2);
}

#[test]
fn adding_a_preset_appends_or_replaces() {
    let mut lib = Library::new();
    lib.add_preset(gate("Xor", "Logic"), true);
    lib.add_preset(gate("And", "Logic"), true);
    lib.add_preset(gate("Buf", "Logic"), false);
    assert_eq!(
        lib.preset_names(),
        vec!["And".to_string(), "Not".to_string(), "Xor".to_string(), "Buf".to_string()]
    );
    assert_eq!(lib.get_preset("And").unwrap().color, [1, 2, 3, 4]);
    let changes = lib.consume_changes();
    assert_eq!(names(&changes), vec!["Xor".to_string(), "And".to_string()]);
    assert!(matches!(changes[0].1, Change::Added));
    assert!(matches!(changes[1].1, Change::Modified));
    assert!(lib.consume_changes().is_empty());
}

#[test]
fn adding_several_presets_records_each() {
    let mut lib = Library::new();
    lib.add_presets(&vec![gate("A", "X"), gate("Not", "X")]);
    let changes = lib.consume_changes();
    assert_eq!(names(&changes), vec!["A".to_string(), "Not".to_string()]);
    assert!(matches!(changes[1].1, Change::Modified));
}

#[test]
fn removing_a_preset() {
    let mut lib = Library::new();
    lib.remove_preset("And");
    assert_eq!(lib.preset_names(), vec!["Not".to_string()]);
    assert!(lib.get_preset("And").is_none());
    let changes = lib.consume_changes();
    assert_eq!(names(&changes), vec!["And".to_string()]);
    assert!(matches!(changes[0].1, Change::Removed));
}

#[test]
fn categories() {
    let mut lib = Library::new();
    lib.add_preset(gate("Xor", "Logic"), false);
    lib.add_preset(gate("Nor", "Basic"), false);
    assert_eq!(lib.cat_names(), vec!["Basic".to_string(), "Logic".to_string()]);
    assert_eq!(lib.cat_presets("Basic"), vec!["And".to_string(), "Not".to_string(), "Nor".to_string()]);
    assert_eq!(lib.cat_presets("None"), Vec::<String>::new());
    let cats = lib.cats_sorted();
    assert_eq!(cats.len(), 2);
    assert_eq!(cats[0].0, "Basic");
    assert_eq!(cats[0].1.len(), 3);
    assert_eq!(cats[1].0, "Logic");
    assert_eq!(cats[1].1[0].name, "Xor");
}

#[test]
fn searching() {
    let mut lib = Library::new();
    lib.add_preset(gate("Nand", "Logic"), false);
    assert_eq!(lib.search_presets("and"), vec!["And".to_string(), "Nand".to_string()]);
    assert_eq!(
        lib.search_presets("N"),
        vec!["Not".to_string(), "Nand".to_string(), "And".to_string()]
    );
    assert_eq!(lib.search_presets(""), Vec::<String>::new());
    assert_eq!(lib.search_presets("zz"), Vec::<String>::new());
    assert_eq!(lib.search_cats("log"), Some("Logic".to_string()));
    assert_eq!(lib.search_cats("a"), Some("Basic".to_string()));
    assert_eq!(lib.search_cats(""), None);
    assert_eq!(lib.search_cats("q"), None);
}

#[test]
fn preset_copies_match() {
    let p = gate("Buf", "Logic");
    let q = p.clone();
    assert_eq!(q.name, "Buf");
    assert_eq!(q.data.input_names().len(), 1);
    assert_eq!(q.data.output_names().len(), 1);
    assert_eq!(q.data.inputs().len(), 1);
    assert_eq!(q.data.outputs().len(), 1);
}

#[test]
fn built_in_gate_presets() {
    let and = and_gate_preset();
    assert_eq!(and.name, "And");
    assert_eq!(and.cat, "Basic");
    match &and.data {
        PresetData::CombGate(g) => assert_eq!(g.table.map, vec![0, 0, 0, 1]),
        PresetData::Chip(_) => panic!("a gate"),
    }
    let not = not_gate_preset();
    assert_eq!(not.color, [0, 255, 0, 255]);
    assert_eq!(not.data.num_inputs(), 1);
}

#[test]
fn preset_list_marks_changes() {
    let mut p = Presets::default();
    assert_eq!(p.consume_dirty(), vec!["And".to_string(), "Not".to_string()]);
    assert!(p.consume_dirty().is_empty());
    p.add_preset(gate("Xor", "Logic"));
    p.merge(&[gate("Not", "Logic"), gate("Or", "Logic")]);
    assert_eq!(p.get().len(), 4);
    assert_eq!(p.get_preset_idx("Or"), Some(3));
    assert_eq!(p.get_preset("Not").unwrap().cat, "Logic");
    assert_eq!(p.consume_dirty(), vec!["Xor".to_string(), "Not".to_string(), "Or".to_string()]);
    p.remove_preset("Xor");
    assert_eq!(p.consume_removed(), vec!["Xor".to_string()]);
    assert!(p.consume_removed().is_empty());
    if let Some(q) = p.mut_preset("Or") {
        q.color = [9, 9, 9, 9];
    }
    assert_eq!(p.get_preset("Or").unwrap().color, [9, 9, 9, 9]);
    assert!(p.mut_preset("Nope").is_none());
    assert_eq!(p.cat_names(), vec!["Basic".to_string(), "Logic".to_string()]);
    assert_eq!(p.cat_presets("Logic"), vec!["Not".to_string(), "Or".to_string()]);
    assert_eq!(p.cats_sorted().len(), 2);
    assert_eq!(p.search_presets("o"), vec!["Or".to_string(), "Not".to_string()]);
    assert_eq!(p.search_cats("bas"), Some("Basic".to_string()));
    let empty = Presets::new(Vec::new());
    assert!(empty.get().is_empty());
}
