use vstd::prelude::*;

verus! {

/// One of the states a button can show: its name and the icon drawn for it.
pub struct ButtonState {
    pub name: String,
    pub icon_path: String,
}

/// The states of a button and the name of the one it shows. A button
/// with no state shows none, and its current name is empty.
pub struct ButtonStates {
    pub states: Vec<ButtonState>,
    pub current_state: String,
}

impl ButtonStates {
    /// The place of the first state with the given name among the first
    /// `n` states, if there is one.
    pub open spec fn first_named(states: Seq<ButtonState>, name: Seq<char>, n: nat) -> Option<int>
        decreases n,
    {
        if n == 0 || n > states.len() {
            None
        } else {
            match ButtonStates::first_named(states, name, (n - 1) as nat) {
                Some(i) => Some(i),
                None => if states[n - 1].name@ == name {
                    Some(n - 1)
                } else {
                    None
                },
            }
        }
    }

    /// A state found among the first states is found among more of them.
    pub proof fn lemma_first_named_stays(states: Seq<ButtonState>, name: Seq<char>, n: nat, m: nat)
        requires
            n <= m <= states.len(),
            ButtonStates::first_named(states, name, n).is_some(),
        ensures
            ButtonStates::first_named(states, name, m) == ButtonStates::first_named(states, name, n),
        decreases m - n,
    {
        if n < m {
            ButtonStates::lemma_first_named_stays(states, name, n, (m - 1) as nat);
        }
    }

    /// No states, and no current one.
    pub fn new() -> (r: ButtonStates)
        ensures
            r.states@.len() == 0,
            r.current_state@.len() == 0,
    {
        ButtonStates { states: Vec::new(), current_state: String::new() }
    }

    /// Adds a state at the end. The first state added becomes the
    /// current one: the current name changes only if it was empty.
    pub fn add_state(&mut self, name: String, icon_path: String)
        ensures
            final(self).states@.len() == old(self).states@.len() + 1,
            forall|i: int|
                0 <= i < old(self).states@.len() ==> final(self).states@[i] == old(self).states@[i],
            final(self).states@[old(self).states@.len() as int].name@ == name@,
            final(self).states@[old(self).states@.len() as int].icon_path@ == icon_path@,
            final(self).current_state@ == if old(self).current_state@.len() == 0 {
                name@
            } else {
                old(self).current_state@
            },
    {
        let state_name = name.clone();
        if self.current_state.as_str().is_empty() {
            self.current_state = name;
        }
        self.states.push(ButtonState { name: state_name, icon_path });
    }

    /// The place of the state that the button shows: the first one with
    /// the current name.
    pub fn current(&self) -> (r: Option<usize>)
        ensures
            match r {
                Some(i) => ButtonStates::first_named(
                    self.states@,
                    self.current_state@,
                    self.states@.len(),
                ) == Some(i as int) && i < self.states@.len() && self.states@[i as int].name@
                    == self.current_state@,
                None => ButtonStates::first_named(
                    self.states@,
                    self.current_state@,
                    self.states@.len(),
                ).is_none(),
            },
    {
        let mut i: usize = 0;
        while i < self.states.len()
            invariant
                i <= self.states.len(),
                ButtonStates::first_named(self.states@, self.current_state@, i as nat).is_none(),
            decreases self.states.len() - i,
        {
            if self.states[i].name == self.current_state {
                proof {
                    assert(ButtonStates::first_named(
                        self.states@,
                        self.current_state@,
                        (i + 1) as nat,
                    ) == Some(i as int));
                    ButtonStates::lemma_first_named_stays(
                        self.states@,
                        self.current_state@,
                        (i + 1) as nat,
                        self.states@.len(),
                    );
                }
                return Some(i);
            }
            i = i + 1;
        }
        None
    }
}

} // verus!
