use phire::game::{detect_format, ChartFormat, RecordMarks};
use phire::character::{character_index, default_visible, localized, same_text, Character, FormEntry};

#[test]
fn records_keep_the_best_marks() {
    let mut r = RecordMarks { score: 900_000, full_combo: false, track_complete: true };
    let other = RecordMarks { score: 950_000, full_combo: true, track_complete: false };
    assert!(r.update(&other, false));
    assert_eq!(r, RecordMarks { score: 950_000, full_combo: true, track_complete: true });
    assert!(!r.update(&other, false));
    assert!(r.update(&other, true));
}

#[test]
fn chart_formats_by_content() {
    assert_eq!(detect_format(Some(ChartFormat::Pbc), Some("{")), ChartFormat::Pbc);
    assert_eq!(detect_format(None, Some("{\"META\": {}}")), ChartFormat::Rpe);
    assert_eq!(detect_format(None, Some("{\"judgeLineList\": []}")), ChartFormat::Pgr);
    assert_eq!(detect_format(None, Some("150\nbp 0 120")), ChartFormat::Pec);
    assert_eq!(detect_format(None, Some("")), ChartFormat::Pec);
    assert_eq!(detect_format(None, None), ChartFormat::Pbc);
}

fn character(forms: &[(&str, bool)], selected: usize) -> Character {
    Character {
        id: "c".to_string(),
        forms: forms.iter().map(|(id, v)| FormEntry { id: id.to_string(), visible: *v }).collect(),
        visible: default_visible(),
        selected_form: selected,
    }
}

#[test]
fn character_forms() {
    let mut c = character(&[("a", true), ("b", false), ("c", true)], 7);
    assert!(c.visible);
    assert_eq!(c.current_form(), 2);
    c.set_form("b");
    assert_eq!(c.current_form(), 1);
    c.set_form("zzz");
    assert_eq!(c.selected_form, 1);
    assert_eq!(c.visible_forms_indices(), vec![0, 2]);
    assert_eq!(c.form_count(), 2);
}

#[test]
fn character_page_opens_on_the_named_character() {
    let cs = vec![character(&[("a", true)], 0), {
        let mut x = character(&[("a", true)], 0);
        x.id = "second".to_string();
        x
    }];
    assert_eq!(character_index(&cs, "second"), 1);
    assert_eq!(character_index(&cs, "none"), 0);
}

#[test]
fn localized_texts_fall_back_to_english() {
    let entries = vec![
        ("en-US".to_string(), "Hello".to_string()),
        ("zh-CN".to_string(), "你好".to_string()),
    ];
    assert_eq!(localized(&entries, "zh-CN"), Some(1));
    assert_eq!(localized(&entries, "ja-JP"), Some(0));
    assert_eq!(localized(&entries[1..].to_vec(), "ja-JP"), None);
    assert!(same_text("ab", "ab"));
    assert!(!same_text("ab", "abc"));
}

#[test]
fn at_most_three_sounds_an_instant() {
    let runs = [true, false, false, false, false, true, false, true];
    assert_eq!(
        phire::game::thin_runs(&runs, 3),
        vec![true, true, true, false, false, true, true, true]
    );
    // the first time always starts a run
    assert_eq!(phire::game::thin_runs(&[false, false, false, false], 3), vec![true, true, true, false]);
    assert_eq!(phire::game::thin_runs(&[], 3), Vec::<bool>::new());
}
