//! Opening and closing the pet in the state that Codex keeps.
use crate::model_id::key;
use crate::text::{cat2, pairs_view, str_eq, words};
use crate::textmap::{
    TextBox, TextMap, distinct, distinct_after_set, lookup, lookup_at, lookup_place, set_then_look,
    table_pairs, with_key,
};
use vstd::prelude::*;
use vstd::string::*;

verus! {

pub const GLOBAL_STATE_FILE: &'static str = ".codex-global-state.json";

pub const PET_OPEN_KEY: &'static str = "electron-avatar-overlay-open";

/// What was done.
#[derive(Debug, Clone, PartialEq, Eq)]
pub struct PetSlimReport {
    pub slim_enabled: bool,
    pub changed: bool,
    pub state_path: String,
}

/// The members that `serde_json` finds in the bytes of an object, with the text of each value as it
/// stands there, in the order of their keys; or the words of its error.
pub uninterp spec fn raw_members(bytes: Seq<u8>) -> Result<
    Seq<(Seq<char>, Seq<char>)>,
    Seq<char>,
>;

/// The bytes that `serde_json` writes for an object whose values are given by their texts; or the
/// words of its error.
pub uninterp spec fn raw_object(pairs: Seq<(Seq<char>, Seq<char>)>) -> Result<
    Seq<u8>,
    Seq<char>,
>;

/// A text that `serde_json` takes as a raw value just as it stands: one that it read as such, or one
/// of the two truth values.
pub open spec fn came_raw(text: Seq<char>) -> bool {
    text == "true"@ || text == "false"@ || exists|source: Seq<u8>|
        raw_members(source) is Ok && #[trigger] holds_text(raw_members(source)->Ok_0, text)
}

/// Some member has this text.
pub open spec fn holds_text(pairs: Seq<(Seq<char>, Seq<char>)>, text: Seq<char>) -> bool {
    exists|i: int| 0 <= i < pairs.len() && (#[trigger] pairs[i]).1 == text
}

/// Every text is one that can be written as it stands, and no key comes twice.
pub open spec fn can_be_written(pairs: Seq<(Seq<char>, Seq<char>)>) -> bool {
    distinct(pairs) && forall|i: int| 0 <= i < pairs.len() ==> came_raw((#[trigger] pairs[i]).1)
}

/// Bytes that give back the same members.
pub open spec fn reads_as(bytes: Seq<u8>, pairs: Seq<(Seq<char>, Seq<char>)>) -> bool {
    raw_members(bytes) matches Ok(found) && distinct(found) && forall|key: Seq<char>| #[trigger]
        lookup(found, key) == lookup(pairs, key)
}

/// `serde_json::from_slice` into a map of `RawValue`. Its result depends on the bytes alone, and a
/// map has each key once.
#[verifier::external_body]
fn read_raw_object(bytes: &[u8]) -> (r: Result<Vec<(String, String)>, String>)
    ensures
        match r {
            Ok(pairs) => raw_members(bytes@) == Ok::<Seq<(Seq<char>, Seq<char>)>, Seq<char>>(
                pairs_view(pairs@),
            ) && distinct(pairs_view(pairs@)),
            Err(e) => raw_members(bytes@) == Err::<Seq<(Seq<char>, Seq<char>)>, Seq<char>>(e@),
        },
{
    serde_json::from_slice::<
        std::collections::BTreeMap<String, Box<serde_json::value::RawValue>>,
    >(bytes).map(
        |map| map.into_iter().map(|(k, v)| (k, v.get().to_string())).collect(),
    ).map_err(|error| error.to_string())
}

/// `serde_json::to_vec` of a map of `RawValue`, each made by `RawValue::from_string`. Its result
/// depends on the members alone. Texts that were read as raw values, and the truth values, are
/// written as they stand, without an error, and reading the bytes gives the same members back.
#[verifier::external_body]
fn write_raw_object(pairs: &Vec<(String, String)>) -> (r: Result<Vec<u8>, String>)
    ensures
        match r {
            Ok(bytes) => raw_object(pairs_view(pairs@)) == Ok::<Seq<u8>, Seq<char>>(bytes@) && (
            can_be_written(pairs_view(pairs@)) ==> reads_as(bytes@, pairs_view(pairs@))),
            Err(e) => raw_object(pairs_view(pairs@)) == Err::<Seq<u8>, Seq<char>>(e@)
                && !can_be_written(pairs_view(pairs@)),
        },
{
    pairs.iter().map(
        |(k, v)| serde_json::value::RawValue::from_string(v.clone()).map(|raw| (k.clone(), raw)),
    ).collect::<Result<std::collections::BTreeMap<_, _>, _>>().and_then(
        |map| serde_json::to_vec(&map),
    ).map_err(|error| error.to_string())
}

/// A state file as it was found.
#[derive(Debug)]
pub enum StateFile {
    Missing,
    /// It could not be read; the words say why.
    Unreadable(String),
    Contents(Vec<u8>),
}

/// A state file as it was parsed.
pub enum State {
    Missing,
    Failed(String),
    Loaded(TextMap<TextBox>),
}

#[verifier::ext_equal]
pub enum StateV {
    Missing,
    Failed(Seq<char>),
    Loaded(Seq<(Seq<char>, Seq<char>)>),
}

impl View for State {
    type V = StateV;

    open spec fn view(&self) -> StateV {
        match self {
            State::Missing => StateV::Missing,
            State::Failed(e) => StateV::Failed(e@),
            State::Loaded(m) => StateV::Loaded(m@),
        }
    }
}

impl State {
    pub open spec fn inv(&self) -> bool {
        self matches State::Loaded(m) ==> m.inv()
    }

    /// The texts of a state were read as raw values.
    pub open spec fn is_raw(&self) -> bool {
        self matches State::Loaded(m) ==> can_be_written(m@)
    }
}

/// Members put together, the last of those with a key.
pub open spec fn table_of(pairs: Seq<(Seq<char>, Seq<char>)>) -> Seq<(Seq<char>, Seq<char>)>
    decreases pairs.len(),
{
    if pairs.len() == 0 {
        pairs
    } else {
        with_key(table_of(pairs.drop_last()), pairs.last().0, pairs.last().1)
    }
}

/// Putting together members without a repeated key leaves them as they are.
proof fn lemma_table_of_distinct(pairs: Seq<(Seq<char>, Seq<char>)>)
    requires
        distinct(pairs),
    ensures
        table_of(pairs) == pairs,
    decreases pairs.len(),
{
    if pairs.len() > 0 {
        let rest = pairs.drop_last();
        assert forall|i: int, j: int| 0 <= i < j < rest.len() implies (#[trigger] rest[i]).0 != (
        #[trigger] rest[j]).0 by {
            assert(pairs[i].0 != pairs[j].0);
        }
        lemma_table_of_distinct(rest);
        lookup_place(rest, pairs.last().0);
        if lookup(rest, pairs.last().0) is Some {
            let i = choose|i: int| 0 <= i < rest.len() && (#[trigger] rest[i]).0 == pairs.last().0;
            assert(pairs[i].0 != pairs[pairs.len() - 1].0);
        }
        set_new_key(rest, pairs.last().0, pairs.last().1);
        assert(rest.push(pairs.last()) =~= pairs);
    }
}

/// Setting a key that is not there puts it at the end.
proof fn set_new_key(pairs: Seq<(Seq<char>, Seq<char>)>, key: Seq<char>, value: Seq<char>)
    requires
        lookup(pairs, key) is None,
    ensures
        with_key(pairs, key, value) == pairs.push((key, value)),
{
    if pairs.len() == 0 {
        assert(pairs.push((key, value)) =~= seq![(key, value)]);
    }
}

/// Setting a key to a truth value leaves texts that can be written.
proof fn lemma_set_can_be_written(
    pairs: Seq<(Seq<char>, Seq<char>)>,
    key: Seq<char>,
    value: Seq<char>,
)
    requires
        can_be_written(pairs),
        came_raw(value),
    ensures
        can_be_written(with_key(pairs, key, value)),
{
    let after = with_key(pairs, key, value);
    distinct_after_set(pairs, key, value);
    assert forall|i: int| 0 <= i < after.len() implies came_raw((#[trigger] after[i]).1) by {
        let name = after[i].0;
        lookup_at(after, i);
        set_then_look(pairs, key, value, name);
        if name != key {
            assert(lookup(pairs, name) == Some(after[i].1));
            lookup_place(pairs, name);
            let j = choose|j: int| 0 <= j < pairs.len() && (#[trigger] pairs[j]).0 == name;
            lookup_at(pairs, j);
            assert(came_raw(pairs[j].1));
        }
    }
}

fn collect_members(pairs: &Vec<(String, String)>) -> (r: TextMap<TextBox>)
    ensures
        r.inv(),
        r@ == table_of(pairs_view(pairs@)),
{
    let ghost all = pairs_view(pairs@);
    let mut out: TextMap<TextBox> = TextMap::new();
    let mut i: usize = 0;
    proof {
        assert(out@ =~= table_of(all.subrange(0, 0)));
    }
    while i < pairs.len()
        invariant
            i <= pairs.len(),
            all == pairs_view(pairs@),
            out.inv(),
            out@ == table_of(all.subrange(0, i as int)),
        decreases pairs.len() - i,
    {
        proof {
            assert(all.subrange(0, i + 1).drop_last() =~= all.subrange(0, i as int));
            assert(all.subrange(0, i + 1).last() == all[i as int]);
        }
        out.insert(pairs[i].0.as_str(), TextBox { text: pairs[i].1.clone() });
        i = i + 1;
    }
    proof {
        assert(all.subrange(0, i as int) =~= all);
    }
    out
}

/// What a state file holds.
pub open spec fn state_of(path: Seq<char>, file: StateFile) -> StateV {
    match file {
        StateFile::Missing => StateV::Missing,
        StateFile::Unreadable(_) => StateV::Failed("读取 Codex 全局状态失败："@ + path),
        StateFile::Contents(bytes) => match raw_members(bytes@) {
            Ok(pairs) => StateV::Loaded(table_of(pairs)),
            Err(_) => StateV::Failed("解析 Codex 全局状态失败："@ + path),
        },
    }
}

/// Reads a state file.
pub fn read_state_file(path: &str, file: &StateFile) -> (r: State)
    ensures
        r.inv(),
        r.is_raw(),
        r@ == state_of(path@, *file),
{
    match file {
        StateFile::Missing => State::Missing,
        StateFile::Unreadable(_) => State::Failed(cat2("读取 Codex 全局状态失败：", path)),
        StateFile::Contents(bytes) => match read_raw_object(bytes.as_slice()) {
            Ok(pairs) => {
                let table = collect_members(&pairs);
                proof {
                    let found = pairs_view(pairs@);
                    lemma_table_of_distinct(found);
                    assert forall|i: int| 0 <= i < found.len() implies came_raw(
                        (#[trigger] found[i]).1,
                    ) by {
                        assert(holds_text(raw_members(bytes@)->Ok_0, found[i].1));
                    }
                }
                State::Loaded(table)
            },
            Err(_) => State::Failed(cat2("解析 Codex 全局状态失败：", path)),
        },
    }
}

/// The state to start from: the file, or its backup where the file is not there or cannot be read.
pub open spec fn chosen_state(primary: StateV, backup: StateV) -> Result<
    Seq<(Seq<char>, Seq<char>)>,
    Seq<char>,
> {
    match primary {
        StateV::Loaded(m) => Ok(m),
        StateV::Missing => match backup {
            StateV::Loaded(m) => Ok(m),
            StateV::Missing => Ok(Seq::empty()),
            StateV::Failed(e) => Err(e),
        },
        StateV::Failed(e) => match backup {
            StateV::Loaded(m) => Ok(m),
            _ => Err(e),
        },
    }
}

fn choose_state(primary: State, backup: State) -> (r: Result<TextMap<TextBox>, String>)
    requires
        primary.inv(),
        backup.inv(),
        primary.is_raw(),
        backup.is_raw(),
    ensures
        match r {
            Ok(m) => m.inv() && can_be_written(m@) && chosen_state(primary@, backup@) == Ok::<
                Seq<(Seq<char>, Seq<char>)>,
                Seq<char>,
            >(m@),
            Err(e) => chosen_state(primary@, backup@) == Err::<
                Seq<(Seq<char>, Seq<char>)>,
                Seq<char>,
            >(e@),
        },
{
    match primary {
        State::Loaded(m) => Ok(m),
        State::Missing => match backup {
            State::Loaded(m) => Ok(m),
            State::Missing => Ok(TextMap::new()),
            State::Failed(e) => Err(e),
        },
        State::Failed(e) => match backup {
            State::Loaded(m) => Ok(m),
            _ => Err(e),
        },
    }
}

/// Whether the pet is open, where the state says so.
pub open spec fn open_state(state: Seq<(Seq<char>, Seq<char>)>) -> Option<bool> {
    match lookup(state, "electron-avatar-overlay-open"@) {
        None => None,
        Some(text) => truth_of(text),
    }
}

/// The truth value that a raw value is, if it is one.
pub open spec fn truth_of(text: Seq<char>) -> Option<bool> {
    if text == "true"@ {
        Some(true)
    } else if text == "false"@ {
        Some(false)
    } else {
        None
    }
}

pub open spec fn bool_text(value: bool) -> Seq<char> {
    if value {
        "true"@
    } else {
        "false"@
    }
}

/// The state with the pet opened or closed; all else stays as it is.
pub open spec fn with_open_state(state: Seq<(Seq<char>, Seq<char>)>, open: bool) -> Seq<
    (Seq<char>, Seq<char>),
> {
    with_key(state, "electron-avatar-overlay-open"@, bool_text(open))
}

/// What is to be done, and what is said of it.
#[derive(Debug)]
pub struct PetSlimPlan {
    pub report: PetSlimReport,
    /// The bytes of the file and of its backup, where they are to be written.
    pub bytes: Option<Vec<u8>>,
}

/// What is to be done to a state, by whether the pet is open in it.
pub open spec fn plan_of(
    state: Seq<(Seq<char>, Seq<char>)>,
    said: Option<bool>,
    state_exists: bool,
    slim_enabled: bool,
) -> Result<(bool, Option<Seq<u8>>), Seq<char>> {
    let changed = said != Some(!slim_enabled);
    if changed || !state_exists {
        match raw_object(with_open_state(state, !slim_enabled)) {
            Ok(bytes) => Ok((changed, Some(bytes))),
            Err(e) => Err(e),
        }
    } else {
        Ok((changed, None))
    }
}

pub open spec fn bytes_view(r: Option<Vec<u8>>) -> Option<Seq<u8>> {
    match r {
        Some(b) => Some(b@),
        None => None,
    }
}

/// What is to be done to a state, by whether the pet is open in it.
pub fn plan_state(
    state: TextMap<TextBox>,
    said: Option<bool>,
    state_path: &str,
    state_exists: bool,
    slim_enabled: bool,
) -> (r: Result<PetSlimPlan, String>)
    requires
        state.inv(),
    ensures
        can_be_written(state@) ==> match r {
            Ok(p) => p.bytes matches Some(bytes) ==> reads_as(
                bytes@,
                with_open_state(state@, !slim_enabled),
            ),
            Err(_) => false,
        },
        match r {
            Ok(p) => {
                &&& plan_of(state@, said, state_exists, slim_enabled) == Ok::<
                    (bool, Option<Seq<u8>>),
                    Seq<char>,
                >((p.report.changed, bytes_view(p.bytes)))
                &&& p.report.slim_enabled == slim_enabled
                &&& p.report.state_path@ == state_path@
            },
            Err(e) => plan_of(state@, said, state_exists, slim_enabled) == Err::<
                (bool, Option<Seq<u8>>),
                Seq<char>,
            >(e@),
        },
{
    let desired = !slim_enabled;
    let changed = match said {
        Some(b) => b != desired,
        None => true,
    };
    let report = PetSlimReport { slim_enabled, changed, state_path: state_path.to_owned() };
    if !changed && state_exists {
        return Ok(PetSlimPlan { report, bytes: None });
    }
    let ghost before = state@;
    let mut state = state;
    let text = if desired {
        "true".to_owned()
    } else {
        "false".to_owned()
    };
    state.insert(PET_OPEN_KEY, TextBox { text });
    let pairs = table_pairs(&state);
    proof {
        if can_be_written(before) {
            lemma_set_can_be_written(
                before,
                "electron-avatar-overlay-open"@,
                bool_text(!slim_enabled),
            );
        }
    }
    match write_raw_object(&pairs) {
        Ok(bytes) => Ok(PetSlimPlan { report, bytes: Some(bytes) }),
        Err(e) => Err(e),
    }
}

/// What is to be done to the state files.
pub open spec fn configured(
    primary: StateV,
    backup: StateV,
    state_exists: bool,
    slim_enabled: bool,
) -> Result<(bool, Option<Seq<u8>>), Seq<char>> {
    match chosen_state(primary, backup) {
        Err(e) => Err(e),
        Ok(state) => plan_of(state, open_state(state), state_exists, slim_enabled),
    }
}

/// What the written files come to: the pet is open or closed as asked, every other member has the
/// text that it had, and asking for the same again changes nothing and writes nothing, whatever the
/// backup holds.
pub open spec fn written_for_good(
    bytes: Seq<u8>,
    before: Seq<(Seq<char>, Seq<char>)>,
    slim_enabled: bool,
) -> bool {
    &&& raw_members(bytes) is Ok
    &&& ({
        let after = table_of(raw_members(bytes)->Ok_0);
        &&& open_state(after) == Some(!slim_enabled)
        &&& forall|key: Seq<char>|
            key != "electron-avatar-overlay-open"@ ==> #[trigger] lookup(after, key) == lookup(
                before,
                key,
            )
        &&& forall|backup: StateV| #[trigger]
            configured(StateV::Loaded(after), backup, true, slim_enabled) == Ok::<
                (bool, Option<Seq<u8>>),
                Seq<char>,
            >((false, None))
    })
}

proof fn lemma_written_for_good(
    bytes: Seq<u8>,
    before: Seq<(Seq<char>, Seq<char>)>,
    slim_enabled: bool,
)
    requires
        reads_as(bytes, with_open_state(before, !slim_enabled)),
    ensures
        written_for_good(bytes, before, slim_enabled),
{
    let found = raw_members(bytes)->Ok_0;
    let flag = "electron-avatar-overlay-open"@;
    lemma_table_of_distinct(found);
    reveal_strlit("true");
    reveal_strlit("false");
    assert("true"@.len() == 4);
    assert("false"@.len() == 5);
    assert forall|key: Seq<char>| key != flag implies #[trigger] lookup(found, key) == lookup(
        before,
        key,
    ) by {
        other_members_stay(before, !slim_enabled, key);
    }
    set_then_look(before, flag, bool_text(!slim_enabled), flag);
    assert(lookup(found, flag) == Some(bool_text(!slim_enabled)));
}

/// What is to be done so that the pet is closed in slim mode, and open otherwise.
pub fn configure(
    state_path: &str,
    backup_path: &str,
    primary: &StateFile,
    backup: &StateFile,
    slim_enabled: bool,
) -> (r: Result<PetSlimPlan, String>)
    ensures
        ({
            let goal = configured(
                state_of(state_path@, *primary),
                state_of(backup_path@, *backup),
                !(primary is Missing),
                slim_enabled,
            );
            match r {
                Ok(p) => {
                    &&& goal == Ok::<(bool, Option<Seq<u8>>), Seq<char>>(
                        (p.report.changed, bytes_view(p.bytes)),
                    )
                    &&& p.report.slim_enabled == slim_enabled
                    &&& p.report.state_path@ == state_path@
                },
                Err(e) => goal == Err::<(bool, Option<Seq<u8>>), Seq<char>>(e@),
            }
        }),
        ({
            let chosen = chosen_state(
                state_of(state_path@, *primary),
                state_of(backup_path@, *backup),
            );
            match r {
                Ok(p) => p.bytes matches Some(bytes) ==> written_for_good(
                    bytes@,
                    chosen->Ok_0,
                    slim_enabled,
                ),
                Err(_) => chosen is Err,
            }
        }),
{
    let first = read_state_file(state_path, primary);
    let second = read_state_file(backup_path, backup);
    let state = match choose_state(first, second) {
        Ok(m) => m,
        Err(e) => {
            return Err(e);
        },
    };
    let said = match state.get(PET_OPEN_KEY) {
        None => None,
        Some(raw) => if str_eq(raw.text.as_str(), "true") {
            Some(true)
        } else if str_eq(raw.text.as_str(), "false") {
            Some(false)
        } else {
            None
        },
    };
    let state_exists = match primary {
        StateFile::Missing => false,
        _ => true,
    };
    let ghost chosen = state@;
    let r = plan_state(state, said, state_path, state_exists, slim_enabled);
    proof {
        if r is Ok && r->Ok_0.bytes is Some {
            lemma_written_for_good(r->Ok_0.bytes->0@, chosen, slim_enabled);
        }
    }
    r
}

/// Opening or closing the pet leaves every other member as it stands.
pub proof fn other_members_stay(state: Seq<(Seq<char>, Seq<char>)>, open: bool, key: Seq<char>)
    requires
        key != "electron-avatar-overlay-open"@,
    ensures
        lookup(with_open_state(state, open), key) == lookup(state, key),
        lookup(with_open_state(state, open), "electron-avatar-overlay-open"@) == Some(
            bool_text(open),
        ),
{
    set_then_look(state, "electron-avatar-overlay-open"@, bool_text(open), key);
    set_then_look(
        state,
        "electron-avatar-overlay-open"@,
        bool_text(open),
        "electron-avatar-overlay-open"@,
    );
}

/// A state file that cannot be read is never replaced, unless there is a backup that can be.
pub proof fn a_broken_state_is_not_replaced(
    words: Seq<char>,
    backup: StateV,
    state_exists: bool,
    slim_enabled: bool,
)
    requires
        !(backup is Loaded),
    ensures
        configured(StateV::Failed(words), backup, state_exists, slim_enabled) == Err::<
            (bool, Option<Seq<u8>>),
            Seq<char>,
        >(words),
{
}

} // verus!
