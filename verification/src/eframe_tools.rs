use vstd::prelude::*;

use crate::files::PathSteps;

verus! {

/// The selection widget's model: an ordered run of options, the option
/// currently selected, and a pending "selection changed" event that the
/// consumer drains once per tick.
pub struct ModalMachine {
    selected_option: PathSteps,
    options: Vec<PathSteps>,
    name: String,
    event: Option<()>,
}

impl ModalMachine {
    pub closed spec fn selected_spec(&self) -> Seq<Seq<char>> {
        self.selected_option@
    }

    pub closed spec fn options_spec(&self) -> Seq<PathSteps> {
        self.options@
    }

    pub closed spec fn name_spec(&self) -> Seq<char> {
        self.name@
    }

    /// Whether a selection event is waiting to be consumed.
    pub closed spec fn event_spec(&self) -> bool {
        self.event is Some
    }

    pub fn default() -> (r: ModalMachine)
        ensures
            r.selected_spec() == Seq::<Seq<char>>::empty(),
            r.options_spec() == Seq::<PathSteps>::empty(),
            r.name_spec() == Seq::<char>::empty(),
            !r.event_spec(),
    {
        ModalMachine {
            selected_option: PathSteps::empty(),
            options: Vec::new(),
            name: String::new(),
            event: None,
        }
    }

    pub fn new(selected_option: PathSteps, options: Vec<PathSteps>, name: String) -> (r:
        ModalMachine)
        ensures
            r.selected_spec() == selected_option@,
            r.options_spec() == options@,
            r.name_spec() == name@,
            !r.event_spec(),
    {
        ModalMachine { selected_option, options, name, event: None }
    }

    pub fn get_selected_option(&self) -> (r: PathSteps)
        ensures
            r@ == self.selected_spec(),
    {
        self.selected_option.duplicate()
    }

    /// What a click in the selection widget does: the choice becomes the
    /// selected option and an event is left for the consumer.
    pub fn select_option(&mut self, choice: PathSteps)
        ensures
            final(self).selected_spec() == choice@,
            final(self).event_spec(),
            final(self).options_spec() == old(self).options_spec(),
            final(self).name_spec() == old(self).name_spec(),
    {
        self.selected_option = choice;
        self.event = Some(());
    }

    /// Consumes the pending event: the selected option when one was
    /// waiting, nothing otherwise.
    pub fn use_event(&mut self) -> (r: Option<PathSteps>)
        ensures
            final(self).selected_spec() == old(self).selected_spec(),
            final(self).options_spec() == old(self).options_spec(),
            final(self).name_spec() == old(self).name_spec(),
            !final(self).event_spec(),
            match r {
                Some(p) => old(self).event_spec() && p@ == old(self).selected_spec(),
                None => !old(self).event_spec(),
            },
    {
        if self.event.is_some() {
            self.event = None;
            return Some(self.get_selected_option());
        }
        None
    }

    /// Discards any pending event.
    pub fn empty_event(&mut self)
        ensures
            final(self).selected_spec() == old(self).selected_spec(),
            final(self).options_spec() == old(self).options_spec(),
            final(self).name_spec() == old(self).name_spec(),
            !final(self).event_spec(),
    {
        self.event = None;
    }

    /// Replaces the option run wholesale, as a snapshot or rename does.
    pub fn replace_options(&mut self, options: Vec<PathSteps>)
        ensures
            final(self).selected_spec() == old(self).selected_spec(),
            final(self).options_spec() == options@,
            final(self).name_spec() == old(self).name_spec(),
            final(self).event_spec() == old(self).event_spec(),
    {
        self.options = options;
    }

    /// How many options are offered.
    pub fn options_len(&self) -> (r: usize)
        ensures
            r == self.options_spec().len(),
    {
        self.options.len()
    }

    /// The option at a position, in display order.
    pub fn option_at(&self, i: usize) -> (r: &PathSteps)
        requires
            i < self.options_spec().len(),
        ensures
            *r == self.options_spec()[i as int],
    {
        &self.options[i]
    }
}

} // verus!
