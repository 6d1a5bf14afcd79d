use crate::actions::{run_action, run_action_ok, try_execute_action, EditAction};
use crate::buffer::{Buffer, BufferModel};
use crate::text::{byte_len, byte_length, str_equal, views};
use vstd::prelude::*;

verus! {

broadcast use crate::text::lemma_views;

/// The modes of the key executor.
#[derive(Clone, Copy, Debug, PartialEq, Eq, Hash)]
pub enum KeyExecutorState {
    Normal,
    Insert,
    Visual,
    MotionPending,
    CharPending,
    Replace,
}

/// The slot of a mode in the executor's table of mappings.
pub open spec fn state_slot(s: KeyExecutorState) -> int {
    match s {
        KeyExecutorState::Normal => 0,
        KeyExecutorState::Insert => 1,
        KeyExecutorState::Visual => 2,
        KeyExecutorState::MotionPending => 3,
        KeyExecutorState::CharPending => 4,
        KeyExecutorState::Replace => 5,
    }
}

/// The index of a mode in the executor's table of mappings.
pub fn state_index(s: KeyExecutorState) -> (r: usize)
    ensures
        r == state_slot(s),
{
    match s {
        KeyExecutorState::Normal => 0,
        KeyExecutorState::Insert => 1,
        KeyExecutorState::Visual => 2,
        KeyExecutorState::MotionPending => 3,
        KeyExecutorState::CharPending => 4,
        KeyExecutorState::Replace => 5,
    }
}

/// What a mapped key sequence does.
#[derive(Clone, Copy, Debug, PartialEq, Eq)]
pub enum KeyCommand {
    /// Run an editing action for every cursor.
    Action(EditAction),
    /// Switch to insert mode.
    EnterInsert,
}

/// A key sequence and what it does.
pub struct Mapping {
    pub keys: Vec<&'static str>,
    pub func: KeyCommand,
}

/// The model of a [`Mapping`].
pub struct MappingModel {
    pub keys: Seq<Seq<char>>,
    pub func: KeyCommand,
}

/// The views of a vector of string slices.
pub open spec fn str_views(v: Seq<&str>) -> Seq<Seq<char>> {
    v.map_values(|s: &str| s@)
}

impl View for Mapping {
    type V = MappingModel;

    open spec fn view(&self) -> MappingModel {
        MappingModel { keys: str_views(self.keys@), func: self.func }
    }
}

pub open spec fn mapping_views(v: Seq<Mapping>) -> Seq<MappingModel> {
    v.map_values(|m: Mapping| m@)
}

pub open spec fn table_views(v: Seq<Vec<Mapping>>) -> Seq<Seq<MappingModel>> {
    v.map_values(|t: Vec<Mapping>| mapping_views(t@))
}

/// Turns key presses into editing commands.
pub struct KeyExecutor {
    pub state: KeyExecutorState,
    pub mappings: Vec<Vec<Mapping>>,
    pub keypresses: Vec<String>,
}

/// The model of a [`KeyExecutor`].
pub struct KeyExecutorModel {
    pub state: KeyExecutorState,
    pub mappings: Seq<Seq<MappingModel>>,
    pub keypresses: Seq<Seq<char>>,
}

impl View for KeyExecutor {
    type V = KeyExecutorModel;

    open spec fn view(&self) -> KeyExecutorModel {
        KeyExecutorModel {
            state: self.state,
            mappings: table_views(self.mappings@),
            keypresses: views(self.keypresses@),
        }
    }
}

/// The table has a list of mappings for each of the six modes.
pub open spec fn table_complete(k: KeyExecutorModel) -> bool {
    k.mappings.len() == 6
}

/// The keys pressed so far are the start of `keys`.
pub open spec fn keys_extend(keys: Seq<Seq<char>>, pressed: Seq<Seq<char>>) -> bool {
    pressed.len() <= keys.len() && keys.take(pressed.len() as int) == pressed
}

/// The first mapping, from `i` on, whose keys are exactly the keys pressed.
pub open spec fn first_exact_from(ms: Seq<MappingModel>, pressed: Seq<Seq<char>>, i: int) -> Option<int>
    decreases ms.len() - i,
{
    if i < 0 || i >= ms.len() {
        None
    } else if ms[i].keys == pressed {
        Some(i)
    } else {
        first_exact_from(ms, pressed, i + 1)
    }
}

/// Some mapping's keys start with the keys pressed.
pub open spec fn any_extends(ms: Seq<MappingModel>, pressed: Seq<Seq<char>>) -> bool {
    exists|i: int| 0 <= i < ms.len() && keys_extend(#[trigger] ms[i].keys, pressed)
}

/// A command can run on the buffer.
pub open spec fn command_ok(cmd: KeyCommand, b: BufferModel) -> bool {
    match cmd {
        KeyCommand::Action(a) => run_action_ok(a, b, None, b.cursors.len()),
        KeyCommand::EnterInsert => true,
    }
}

/// The executor and the buffer after a command.
pub open spec fn command_result(cmd: KeyCommand, k: KeyExecutorModel, b: BufferModel) -> (KeyExecutorModel, BufferModel) {
    match cmd {
        KeyCommand::Action(a) => (k, run_action(a, b, None, b.cursors.len())),
        KeyCommand::EnterInsert => (KeyExecutorModel { state: KeyExecutorState::Insert, ..k }, b),
    }
}

/// A key in a mode other than insert: with the pressed keys, an exact
/// normal-mode mapping clears them and runs its command; otherwise they are
/// kept while some mapping starts with them, and cleared when none does.
pub open spec fn normal_key_result(k: KeyExecutorModel, b: BufferModel) -> (KeyExecutorModel, BufferModel) {
    let ms = k.mappings[0];
    match first_exact_from(ms, k.keypresses, 0) {
        Some(i) => command_result(ms[i].func, KeyExecutorModel { keypresses: seq![], ..k }, b),
        None => if any_extends(ms, k.keypresses) {
            (k, b)
        } else {
            (KeyExecutorModel { keypresses: seq![], ..k }, b)
        },
    }
}

/// The buffer after typing `text` in insert mode: it goes in at each cursor,
/// then each cursor moves right.
pub open spec fn typed(b: BufferModel, text: Seq<char>) -> BufferModel {
    let b1 = run_action(EditAction::InsertChar, b, Some(text), b.cursors.len());
    run_action(EditAction::MoveRight, b1, None, b1.cursors.len())
}

/// Typing `text` in insert mode can run.
pub open spec fn typing_ok(b: BufferModel, text: Seq<char>) -> bool {
    let b1 = run_action(EditAction::InsertChar, b, Some(text), b.cursors.len());
    run_action_ok(EditAction::InsertChar, b, Some(text), b.cursors.len()) && run_action_ok(
        EditAction::MoveRight,
        b1,
        None,
        b1.cursors.len(),
    )
}

/// A key in insert mode: `Escape` goes back to normal mode, a one-byte key
/// is typed, anything else is dropped; the pressed keys are cleared.
pub open spec fn insert_key_result(k: KeyExecutorModel, b: BufferModel) -> (KeyExecutorModel, BufferModel) {
    let first = k.keypresses[0];
    let k1 = KeyExecutorModel { keypresses: seq![], ..k };
    if first == "Escape"@ {
        (KeyExecutorModel { state: KeyExecutorState::Normal, ..k1 }, b)
    } else if byte_len(first) == 1 {
        (k1, typed(b, first))
    } else {
        (k1, b)
    }
}

/// The executor with `key` added to the pressed keys.
pub open spec fn pressed(k: KeyExecutorModel, key: Seq<char>) -> KeyExecutorModel {
    KeyExecutorModel { keypresses: k.keypresses.push(key), ..k }
}

/// The executor and the buffer after `key` is pressed.
pub open spec fn key_result(k: KeyExecutorModel, key: Seq<char>, b: BufferModel) -> (KeyExecutorModel, BufferModel) {
    let k1 = pressed(k, key);
    if k.state == KeyExecutorState::Insert {
        insert_key_result(k1, b)
    } else {
        normal_key_result(k1, b)
    }
}

/// Nothing is pending in insert mode; elsewhere the keys pending are the
/// start of some normal-mode mapping and exactly the keys of none.
pub open spec fn executor_settled(k: KeyExecutorModel) -> bool {
    ||| k.keypresses.len() == 0
    ||| {
        &&& k.state != KeyExecutorState::Insert
        &&& any_extends(k.mappings[0], k.keypresses)
        &&& first_exact_from(k.mappings[0], k.keypresses, 0) is None
    }
}

/// The executor and the buffer after `keys` are pressed one after the other.
pub open spec fn keys_result(k: KeyExecutorModel, keys: Seq<Seq<char>>, b: BufferModel) -> (KeyExecutorModel, BufferModel)
    decreases keys.len(),
{
    if keys.len() == 0 {
        (k, b)
    } else {
        let (k1, b1) = keys_result(k, keys.drop_last(), b);
        key_result(k1, keys.last(), b1)
    }
}

/// Pressing `key` can run: the table is complete and whatever runs can run
/// on the buffer.
pub open spec fn key_ok(k: KeyExecutorModel, key: Seq<char>, b: BufferModel) -> bool {
    let k1 = pressed(k, key);
    &&& table_complete(k)
    &&& if k.state == KeyExecutorState::Insert {
        let first = k1.keypresses[0];
        first != "Escape"@ && byte_len(first) == 1 ==> typing_ok(b, first)
    } else {
        match first_exact_from(k1.mappings[0], k1.keypresses, 0) {
            Some(i) => command_ok(k1.mappings[0][i].func, b),
            None => true,
        }
    }
}

/// The keys of the default normal-mode mappings and their commands.
pub open spec fn default_normal_mappings() -> Seq<MappingModel> {
    seq![
        MappingModel { keys: seq!["h"@], func: KeyCommand::Action(EditAction::MoveLeft) },
        MappingModel { keys: seq!["j"@], func: KeyCommand::Action(EditAction::MoveDown) },
        MappingModel { keys: seq!["k"@], func: KeyCommand::Action(EditAction::MoveUp) },
        MappingModel { keys: seq!["l"@], func: KeyCommand::Action(EditAction::MoveRight) },
        MappingModel { keys: seq!["g"@, "g"@], func: KeyCommand::Action(EditAction::MoveBeginning) },
        MappingModel { keys: seq!["x"@], func: KeyCommand::Action(EditAction::DeleteChar) },
        MappingModel { keys: seq!["i"@], func: KeyCommand::EnterInsert },
    ]
}

/// The pending keys are none, or the start of some normal-mode mapping.
pub open spec fn pending_keys_valid(k: KeyExecutorModel) -> bool {
    k.keypresses.len() == 0 || any_extends(k.mappings[0], k.keypresses)
}

proof fn lemma_first_exact_from(ms: Seq<MappingModel>, pressed: Seq<Seq<char>>, i: int)
    ensures
        first_exact_from(ms, pressed, i) matches Some(j) ==> i <= j < ms.len() && ms[j].keys
            == pressed,
    decreases ms.len() - i,
{
    if 0 <= i < ms.len() && ms[i].keys != pressed {
        lemma_first_exact_from(ms, pressed, i + 1);
    }
}

impl KeyExecutor {
    /// An executor in normal mode with the default mappings.
    pub fn new() -> (ke: KeyExecutor)
        ensures
            ke@.state == KeyExecutorState::Normal,
            ke@.keypresses == Seq::<Seq<char>>::empty(),
            executor_settled(ke@),
            ke@.mappings.len() == 6,
            ke@.mappings[0] == default_normal_mappings(),
            forall|i: int| 1 <= i < 6 ==> ke@.mappings[i] == Seq::<MappingModel>::empty(),
    {
        let mut ke = KeyExecutor {
            state: KeyExecutorState::Normal,
            mappings: Vec::new(),
            keypresses: Vec::new(),
        };
        let mut n: usize = 0;
        while n < 6
            invariant
                n <= 6,
                ke.mappings@.len() == n,
                ke.state == KeyExecutorState::Normal,
                ke.keypresses@.len() == 0,
                forall|i: int| 0 <= i < n ==> (#[trigger] ke.mappings@[i])@.len() == 0,
            decreases 6 - n,
        {
            ke.mappings.push(Vec::new());
            n = n + 1;
        }
        ke.initialize_mappings();
        proof {
            assert(ke@.keypresses =~= Seq::<Seq<char>>::empty());
            assert forall|i: int| 1 <= i < 6 implies ke@.mappings[i] == Seq::<MappingModel>::empty() by {
                assert(ke@.mappings[i] =~= Seq::<MappingModel>::empty());
            }
        }
        ke
    }

    /// Adds the default normal-mode mappings.
    fn initialize_mappings(&mut self)
        requires
            old(self).mappings@.len() == 6,
        ensures
            final(self).state == old(self).state,
            final(self).keypresses@ == old(self).keypresses@,
            final(self).mappings@.len() == 6,
            forall|i: int| 1 <= i < 6 ==> final(self).mappings@[i] == old(self).mappings@[i],
            final(self)@.mappings[0] == mapping_views(old(self).mappings@[0]@) + default_normal_mappings(),
    {
        let ghost before = mapping_views(self.mappings@[0]@);
        let mut normal_mappings: Vec<Mapping> = Vec::new();
        self.mappings.set_and_swap(0, &mut normal_mappings);
        normal_mappings.push(Mapping { keys: vec!["h"], func: KeyCommand::Action(EditAction::MoveLeft) });
        normal_mappings.push(Mapping { keys: vec!["j"], func: KeyCommand::Action(EditAction::MoveDown) });
        normal_mappings.push(Mapping { keys: vec!["k"], func: KeyCommand::Action(EditAction::MoveUp) });
        normal_mappings.push(Mapping { keys: vec!["l"], func: KeyCommand::Action(EditAction::MoveRight) });
        normal_mappings.push(
            Mapping { keys: vec!["g", "g"], func: KeyCommand::Action(EditAction::MoveBeginning) },
        );
        normal_mappings.push(Mapping { keys: vec!["x"], func: KeyCommand::Action(EditAction::DeleteChar) });
        normal_mappings.push(Mapping { keys: vec!["i"], func: KeyCommand::EnterInsert });
        self.mappings.set_and_swap(0, &mut normal_mappings);
        proof {
            let ms = mapping_views(self.mappings@[0]@);
            assert(ms =~= before + default_normal_mappings()) by {
                assert(ms.len() == before.len() + 7);
                assert forall|i: int| 0 <= i < ms.len() implies ms[i] == (before + default_normal_mappings())[i] by {
                    if i >= before.len() {
                        let j = i - before.len();
                        assert(ms[i].keys =~= default_normal_mappings()[j].keys);
                    }
                }
            }
            assert(table_views(self.mappings@)[0] == ms);
        }
    }

    /// Whether the keys pressed are the start of mapping `m`'s keys
    /// (`exact` asks for all of its keys).
    fn mapping_matches(&self, m: &Mapping, exact: bool) -> (r: bool)
        ensures
            exact ==> r == (m@.keys == self@.keypresses),
            !exact ==> r == keys_extend(m@.keys, self@.keypresses),
    {
        let n = self.keypresses.len();
        if exact && m.keys.len() != n {
            return false;
        }
        if m.keys.len() < n {
            return false;
        }
        let mut j: usize = 0;
        while j < n
            invariant
                n == self.keypresses@.len(),
                j <= n <= m.keys@.len(),
                exact ==> m.keys@.len() == n,
                forall|q: int| 0 <= q < j ==> m.keys@[q]@ == self.keypresses@[q]@,
            decreases n - j,
        {
            if !str_equal(m.keys[j], self.keypresses[j].as_str()) {
                assert(m@.keys[j as int] != self@.keypresses[j as int]);
                assert(m@.keys.take(n as int)[j as int] != self@.keypresses[j as int]);
                return false;
            }
            j = j + 1;
        }
        assert(m@.keys.take(n as int) =~= self@.keypresses);
        proof {
            if exact {
                assert(m@.keys =~= self@.keypresses);
            }
        }
        true
    }

    /// The first mapping of `search_state` whose keys are exactly the keys
    /// pressed, and whether some mapping starts with them.
    fn search_mappings(&self, search_state: KeyExecutorState) -> (r: (Option<usize>, bool))
        requires
            table_complete(self@),
        ensures
            ({
                let ms = self@.mappings[state_slot(search_state)];
                &&& match r.0 {
                    Some(i) => first_exact_from(ms, self@.keypresses, 0) == Some(i as int),
                    None => first_exact_from(ms, self@.keypresses, 0) is None,
                }
                &&& r.1 == any_extends(ms, self@.keypresses)
            }),
    {
        let ghost ms = self@.mappings[state_slot(search_state)];
        let mut exists_mapping = false;
        let potential_mappings: &Vec<Mapping> = &self.mappings[state_index(search_state)];
        assert(mapping_views(potential_mappings@) == ms);
        assert(ms.len() == potential_mappings@.len());
        let mut idx: usize = 0;
        while idx < potential_mappings.len()
            invariant
                idx <= potential_mappings.len(),
                table_complete(self@),
                ms == self@.mappings[state_slot(search_state)],
                mapping_views(potential_mappings@) == ms,
                ms.len() == potential_mappings@.len(),
                first_exact_from(ms, self@.keypresses, 0) == first_exact_from(ms, self@.keypresses, idx as int),
                exists_mapping == exists|q: int| 0 <= q < idx && keys_extend(#[trigger] ms[q].keys, self@.keypresses),
            decreases potential_mappings.len() - idx,
        {
            let mapping = &potential_mappings[idx];
            assert(ms[idx as int] == mapping@);
            if self.mapping_matches(mapping, false) {
                exists_mapping = true;
            }
            if self.mapping_matches(mapping, true) {
                assert(keys_extend(ms[idx as int].keys, self@.keypresses)) by {
                    assert(ms[idx as int].keys.take(self@.keypresses.len() as int) =~= ms[idx as int].keys);
                }
                assert(first_exact_from(ms, self@.keypresses, idx as int) == Some(idx as int));
                assert(any_extends(ms, self@.keypresses));
                return (Some(idx), true);
            }
            idx = idx + 1;
        }
        assert(exists_mapping == any_extends(ms, self@.keypresses));
        (None, exists_mapping)
    }

    /// Runs a mapped command when it may run (see [`command_ok`]); answers
    /// whether it ran.
    fn run_command(&mut self, cmd: KeyCommand, buffer: &mut Buffer) -> (r: bool)
        ensures
            r == command_ok(cmd, old(buffer)@),
            r ==> (final(self)@, final(buffer)@) == command_result(cmd, old(self)@, old(buffer)@),
    {
        match cmd {
            KeyCommand::Action(a) => try_execute_action(a, buffer, None),
            KeyCommand::EnterInsert => {
                self.state = KeyExecutorState::Insert;
                true
            },
        }
    }

    /// A key in a mode other than insert (see [`normal_key_result`]); answers
    /// whether the mapped command, if any, could run.
    fn execute_normal(&mut self, buffer: &mut Buffer) -> (r: bool)
        requires
            table_complete(old(self)@),
        ensures
            r == match first_exact_from(old(self)@.mappings[0], old(self)@.keypresses, 0) {
                Some(i) => command_ok(old(self)@.mappings[0][i].func, old(buffer)@),
                None => true,
            },
            r ==> (final(self)@, final(buffer)@) == normal_key_result(old(self)@, old(buffer)@),
            r ==> table_complete(final(self)@),
    {
        let ghost k = self@;
        let (found_mapping, exists_mapping) = self.search_mappings(KeyExecutorState::Normal);
        if let Some(idx) = found_mapping {
            proof {
                lemma_first_exact_from(k.mappings[0], k.keypresses, 0);
            }
            self.keypresses.clear();
            assert(self@.keypresses =~= Seq::<Seq<char>>::empty());
            let func = self.mappings[0][idx].func;
            assert(func == k.mappings[0][idx as int].func);
            if !self.run_command(func, buffer) {
                return false;
            }
        }
        if !exists_mapping {
            self.keypresses.clear();
            assert(self@.keypresses =~= Seq::<Seq<char>>::empty());
        }
        true
    }

    /// A key in insert mode (see [`insert_key_result`]); answers whether the
    /// typing, if any, could run.
    fn execute_insert(&mut self, buffer: &mut Buffer) -> (r: bool)
        requires
            old(self)@.keypresses.len() >= 1,
        ensures
            r == ({
                let first = old(self)@.keypresses[0];
                first != "Escape"@ && byte_len(first) == 1 ==> typing_ok(old(buffer)@, first)
            }),
            r ==> (final(self)@, final(buffer)@) == insert_key_result(old(self)@, old(buffer)@),
    {
        if str_equal(self.keypresses[0].as_str(), "Escape") {
            self.state = KeyExecutorState::Normal;
        } else if byte_length(self.keypresses[0].as_str()) == 1 {
            if !try_execute_action(EditAction::InsertChar, buffer, Some(self.keypresses[0].as_str())) {
                return false;
            }
            if !try_execute_action(EditAction::MoveRight, buffer, None) {
                return false;
            }
        }
        self.keypresses.clear();
        assert(self@.keypresses =~= Seq::<Seq<char>>::empty());
        true
    }

    /// Handles one key press as [`KeyExecutor::execute_key`] does, when what
    /// it runs may run (see [`key_ok`]); otherwise stops before the first
    /// step that may not run and answers `false`.
    pub fn try_execute_key(&mut self, key: &str, buffer: &mut Buffer) -> (r: bool)
        ensures
            r == key_ok(old(self)@, key@, old(buffer)@),
            r ==> (final(self)@, final(buffer)@) == key_result(old(self)@, key@, old(buffer)@),
            r ==> table_complete(final(self)@) && pending_keys_valid(final(self)@),
    {
        if self.mappings.len() != 6 {
            return false;
        }
        let ghost k = self@;
        self.keypresses.push(key.to_owned());
        assert(self@ == pressed(k, key@)) by {
            assert(self@.keypresses =~= k.keypresses.push(key@));
        }
        match self.state {
            KeyExecutorState::Normal => self.execute_normal(buffer),
            KeyExecutorState::Insert => self.execute_insert(buffer),
            KeyExecutorState::Visual => self.execute_normal(buffer),
            KeyExecutorState::MotionPending => self.execute_normal(buffer),
            KeyExecutorState::CharPending => self.execute_normal(buffer),
            KeyExecutorState::Replace => self.execute_normal(buffer),
        }
    }

    /// Handles one key press (see [`key_result`]).
    pub fn execute_key(&mut self, key: &str, buffer: &mut Buffer)
        requires
            key_ok(old(self)@, key@, old(buffer)@),
        ensures
            (final(self)@, final(buffer)@) == key_result(old(self)@, key@, old(buffer)@),
            table_complete(final(self)@),
            pending_keys_valid(final(self)@),
    {
        let ran = self.try_execute_key(key, buffer);
        assert(ran);
    }
}

} // verus!
