use vstd::prelude::*;
use crate::engine::EngineState;
use crate::sorting_algorithms::SortingAlgorithmKind;

verus! {

/// What the settings panel asks for.
pub enum SettingsPanelAction {
    Nothing,
    StartRequested(Vec<SortingAlgorithmKind>),
    StopRequested,
}

/// A request of the settings panel as plain values.
pub enum ActionView {
    Nothing,
    StartRequested(Seq<SortingAlgorithmKind>),
    StopRequested,
}

impl View for SettingsPanelAction {
    type V = ActionView;

    open spec fn view(&self) -> ActionView {
        match self {
            SettingsPanelAction::Nothing => ActionView::Nothing,
            SettingsPanelAction::StartRequested(algorithms) => ActionView::StartRequested(
                algorithms@,
            ),
            SettingsPanelAction::StopRequested => ActionView::StopRequested,
        }
    }
}

/// Which algorithms are ticked in the settings panel.
#[derive(Clone, Copy, Debug)]
pub struct AlgorithmSelection {
    pub use_bubble_sort: bool,
    pub use_quick_sort: bool,
    pub use_insertion_sort: bool,
    pub use_selection_sort: bool,
    pub use_merge_sort: bool,
    pub use_heap_sort: bool,
    pub use_shell_sort: bool,
    pub use_intro_sort: bool,
    pub use_tim_sort: bool,
    pub use_cocktail_sort: bool,
    pub use_comb_sort: bool,
    pub use_gnome_sort: bool,
}

/// The order in which ticked algorithms are handed to a run.
pub open spec fn panel_order() -> Seq<SortingAlgorithmKind> {
    seq![
        SortingAlgorithmKind::BubbleSort,
        SortingAlgorithmKind::QuickSort,
        SortingAlgorithmKind::InsertionSort,
        SortingAlgorithmKind::SelectionSort,
        SortingAlgorithmKind::MergeSort,
        SortingAlgorithmKind::HeapSort,
        SortingAlgorithmKind::ShellSort,
        SortingAlgorithmKind::IntroSort,
        SortingAlgorithmKind::CombSort,
        SortingAlgorithmKind::TimSort,
        SortingAlgorithmKind::CocktailSort,
        SortingAlgorithmKind::GnomeSort,
    ]
}

/// The algorithm at a position of the panel order.
fn panel_kind(position: usize) -> (kind: SortingAlgorithmKind)
    requires
        position < 12,
    ensures
        kind == panel_order()[position as int],
{
    if position == 0 {
        SortingAlgorithmKind::BubbleSort
    } else if position == 1 {
        SortingAlgorithmKind::QuickSort
    } else if position == 2 {
        SortingAlgorithmKind::InsertionSort
    } else if position == 3 {
        SortingAlgorithmKind::SelectionSort
    } else if position == 4 {
        SortingAlgorithmKind::MergeSort
    } else if position == 5 {
        SortingAlgorithmKind::HeapSort
    } else if position == 6 {
        SortingAlgorithmKind::ShellSort
    } else if position == 7 {
        SortingAlgorithmKind::IntroSort
    } else if position == 8 {
        SortingAlgorithmKind::CombSort
    } else if position == 9 {
        SortingAlgorithmKind::TimSort
    } else if position == 10 {
        SortingAlgorithmKind::CocktailSort
    } else {
        SortingAlgorithmKind::GnomeSort
    }
}

impl Default for AlgorithmSelection {
    /// Bubble sort and quick sort are ticked, the others are not.
    fn default() -> (selection: Self)
        ensures
            selection.chosen() == seq![
                SortingAlgorithmKind::BubbleSort,
                SortingAlgorithmKind::QuickSort,
            ],
    {
        let selection = AlgorithmSelection {
            use_bubble_sort: true,
            use_quick_sort: true,
            use_insertion_sort: false,
            use_selection_sort: false,
            use_merge_sort: false,
            use_heap_sort: false,
            use_shell_sort: false,
            use_intro_sort: false,
            use_tim_sort: false,
            use_cocktail_sort: false,
            use_comb_sort: false,
            use_gnome_sort: false,
        };
        proof {
            reveal_with_fuel(AlgorithmSelection::chosen_upto, 13);
            assert(selection.chosen_upto(12) =~= seq![
                SortingAlgorithmKind::BubbleSort,
                SortingAlgorithmKind::QuickSort,
            ]);
        }
        selection
    }
}

impl AlgorithmSelection {
    /// The algorithm is ticked.
    pub open spec fn uses(self, kind: SortingAlgorithmKind) -> bool {
        match kind {
            SortingAlgorithmKind::BubbleSort => self.use_bubble_sort,
            SortingAlgorithmKind::QuickSort => self.use_quick_sort,
            SortingAlgorithmKind::InsertionSort => self.use_insertion_sort,
            SortingAlgorithmKind::SelectionSort => self.use_selection_sort,
            SortingAlgorithmKind::MergeSort => self.use_merge_sort,
            SortingAlgorithmKind::HeapSort => self.use_heap_sort,
            SortingAlgorithmKind::ShellSort => self.use_shell_sort,
            SortingAlgorithmKind::IntroSort => self.use_intro_sort,
            SortingAlgorithmKind::TimSort => self.use_tim_sort,
            SortingAlgorithmKind::CocktailSort => self.use_cocktail_sort,
            SortingAlgorithmKind::CombSort => self.use_comb_sort,
            SortingAlgorithmKind::GnomeSort => self.use_gnome_sort,
        }
    }

    /// The ticked algorithms among the first `count` of the panel order, in
    /// that order.
    pub open spec fn chosen_upto(self, count: nat) -> Seq<SortingAlgorithmKind>
        decreases count,
    {
        if count == 0 || count > 12 {
            Seq::empty()
        } else if self.uses(panel_order()[count - 1]) {
            self.chosen_upto((count - 1) as nat).push(panel_order()[count - 1])
        } else {
            self.chosen_upto((count - 1) as nat)
        }
    }

    /// The ticked algorithms, in the panel order.
    pub open spec fn chosen(self) -> Seq<SortingAlgorithmKind> {
        self.chosen_upto(12)
    }

    /// Tells whether the algorithm is ticked.
    pub fn is_ticked(&self, kind: SortingAlgorithmKind) -> (ticked: bool)
        ensures
            ticked == self.uses(kind),
    {
        match kind {
            SortingAlgorithmKind::BubbleSort => self.use_bubble_sort,
            SortingAlgorithmKind::QuickSort => self.use_quick_sort,
            SortingAlgorithmKind::InsertionSort => self.use_insertion_sort,
            SortingAlgorithmKind::SelectionSort => self.use_selection_sort,
            SortingAlgorithmKind::MergeSort => self.use_merge_sort,
            SortingAlgorithmKind::HeapSort => self.use_heap_sort,
            SortingAlgorithmKind::ShellSort => self.use_shell_sort,
            SortingAlgorithmKind::IntroSort => self.use_intro_sort,
            SortingAlgorithmKind::TimSort => self.use_tim_sort,
            SortingAlgorithmKind::CocktailSort => self.use_cocktail_sort,
            SortingAlgorithmKind::CombSort => self.use_comb_sort,
            SortingAlgorithmKind::GnomeSort => self.use_gnome_sort,
        }
    }

    /// The ticked algorithms, in the panel order.
    pub fn selected_algorithms(&self) -> (selected: Vec<SortingAlgorithmKind>)
        ensures
            selected@ == self.chosen(),
    {
        let mut selected_algorithms: Vec<SortingAlgorithmKind> = Vec::new();
        let mut position: usize = 0;
        while position < 12
            invariant
                position <= 12,
                selected_algorithms@ == self.chosen_upto(position as nat),
            decreases 12 - position,
        {
            let kind = panel_kind(position);
            if self.is_ticked(kind) {
                selected_algorithms.push(kind);
            }
            position += 1;
        }
        selected_algorithms
    }

    /// What the panel asks for, given where the engine stands and which
    /// button was pressed: to start a run of the ticked algorithms when
    /// the start button is pressed while the engine is idle, to stop when
    /// the stop button is pressed while it prepares or runs, and nothing
    /// otherwise.
    pub fn action_for(
        &self,
        engine_state: &EngineState,
        start_pressed: bool,
        stop_pressed: bool,
    ) -> (action: SettingsPanelAction)
        ensures
            action@ == match *engine_state {
                EngineState::Idle => if start_pressed {
                    ActionView::StartRequested(self.chosen())
                } else {
                    ActionView::Nothing
                },
                _ => if stop_pressed {
                    ActionView::StopRequested
                } else {
                    ActionView::Nothing
                },
            },
    {
        match engine_state {
            EngineState::Idle => {
                if start_pressed {
                    SettingsPanelAction::StartRequested(self.selected_algorithms())
                } else {
                    SettingsPanelAction::Nothing
                }
            },
            _ => {
                if stop_pressed {
                    SettingsPanelAction::StopRequested
                } else {
                    SettingsPanelAction::Nothing
                }
            },
        }
    }
}

} // verus!
