use vissort::engine::EngineState;
use vissort::sorting_algorithms::SortingAlgorithmKind;
use vissort::ui::layout::{detect_first_changed_index, grid_column_count, grid_row_count};
use vissort::ui::settings_panel::{AlgorithmSelection, SettingsPanelAction};

fn names(kinds: &[SortingAlgorithmKind]) -> Vec<&'static str> {
    kinds.iter().map(|kind| kind.display_name()).collect()
}

fn all_ticked() -> AlgorithmSelection {
    AlgorithmSelection {
        use_bubble_sort: true,
        use_quick_sort: true,
        use_insertion_sort: true,
        use_selection_sort: true,
        use_merge_sort: true,
        use_heap_sort: true,
        use_shell_sort: true,
        use_intro_sort: true,
        use_tim_sort: true,
        use_cocktail_sort: true,
        use_comb_sort: true,
        use_gnome_sort: true,
    }
}

#[test]
fn default_selection_is_bubble_and_quick() {
    let selection = AlgorithmSelection::default();
    assert_eq!(names(&selection.selected_algorithms()), vec!["Bubble Sort", "Quick Sort"]);
    assert!(selection.is_ticked(SortingAlgorithmKind::BubbleSort));
    assert!(!selection.is_ticked(SortingAlgorithmKind::TimSort));
}

#[test]
fn selection_follows_panel_order() {
    assert_eq!(
        names(&all_ticked().selected_algorithms()),
        vec![
            "Bubble Sort",
            "Quick Sort",
            "Insertion Sort",
            "Selection Sort",
            "Merge Sort",
            "Heap Sort",
            "Shell Sort",
            "Intro Sort",
            "Comb Sort",
            "Tim Sort",
            "Cocktail Shaker Sort",
            "Gnome Sort"
        ]
    );
    let mut some = all_ticked();
    some.use_bubble_sort = false;
    some.use_merge_sort = false;
    some.use_intro_sort = false;
    some.use_comb_sort = false;
    some.use_gnome_sort = false;
    assert_eq!(
        names(&some.selected_algorithms()),
        vec![
            "Quick Sort",
            "Insertion Sort",
            "Selection Sort",
            "Heap Sort",
            "Shell Sort",
            "Tim Sort",
            "Cocktail Shaker Sort"
        ]
    );
}

#[test]
fn panel_asks_to_start_only_when_idle() {
    let selection = AlgorithmSelection::default();
    match selection.action_for(&EngineState::Idle, true, false) {
        SettingsPanelAction::StartRequested(kinds) => {
            assert_eq!(names(&kinds), vec!["Bubble Sort", "Quick Sort"])
        }
        _ => panic!("start expected"),
    }
    assert!(matches!(
        selection.action_for(&EngineState::Idle, false, true),
        SettingsPanelAction::Nothing
    ));
    assert!(matches!(
        selection.action_for(&EngineState::Running, true, false),
        SettingsPanelAction::Nothing
    ));
    assert!(matches!(
        selection.action_for(&EngineState::Running, false, true),
        SettingsPanelAction::StopRequested
    ));
    let preparing = EngineState::Preparing { algorithms_completed: 1, algorithms_total: 3 };
    assert!(matches!(
        selection.action_for(&preparing, true, true),
        SettingsPanelAction::StopRequested
    ));
    assert!(matches!(
        selection.action_for(&preparing, true, false),
        SettingsPanelAction::Nothing
    ));
}

#[test]
fn grid_columns_leave_room_for_rows() {
    assert_eq!(grid_column_count(10, 5, 12), 4);
    assert_eq!(grid_column_count(10, 5, 7), 3);
    assert_eq!(grid_column_count(10, 5, 3), 1);
    assert_eq!(grid_column_count(10, 2, 3), 2);
    assert_eq!(grid_column_count(10, 2, 2), 1);
    assert_eq!(grid_column_count(10, 1, 3), 3);
    assert_eq!(grid_column_count(2, 1, 3), 2);
    assert_eq!(grid_column_count(3, 3, 1), 1);
    assert_eq!(grid_column_count(1, 3, 12), 1);
}

#[test]
fn grid_rows_hold_all_panels() {
    assert_eq!(grid_row_count(12, 4), 3);
    assert_eq!(grid_row_count(7, 3), 3);
    assert_eq!(grid_row_count(1, 1), 1);
    assert_eq!(grid_row_count(0, 2), 1);
    assert_eq!(grid_row_count(5, 4), 2);
}

#[test]
fn first_changed_index_found() {
    assert_eq!(detect_first_changed_index(&[1, 2, 3], &[1, 2, 3]), None);
    assert_eq!(detect_first_changed_index(&[], &[]), None);
    assert_eq!(detect_first_changed_index(&[1, 2, 3], &[1, 5, 4]), Some(1));
    assert_eq!(detect_first_changed_index(&[9, 2, 3], &[1, 2, 3]), Some(0));
    assert_eq!(detect_first_changed_index(&[1, 2], &[1, 2, 3]), Some(2));
    assert_eq!(detect_first_changed_index(&[1, 2, 3], &[1]), Some(1));
    assert_eq!(detect_first_changed_index(&[], &[4]), Some(0));
}
