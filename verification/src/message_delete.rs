//! Deleting turns from a session's rollout, and messages from older databases.
use crate::json::{Json, JsonV, own_view, owned, parse_text, string_view, text_parsed, views};
use crate::text::{
    Sep, cat5, chars_of, find_sep, find_sep_is_first, is_sep, join, joined, list_has,
    listed_is_contained, str_eq, strip_prefix, stripped_prefix, text_of, texts, texts_push, trim,
    trimmed,
};
use vstd::prelude::*;
use vstd::string::*;

verus! {

/// What a deletion did.
#[derive(Debug, Clone)]
pub struct MessageDeleteResult {
    pub deleted: usize,
    pub unsupported_databases: Vec<String>,
}

/// The session that a request means, where the request names a session and messages.
pub open spec fn delete_session(session_id: Seq<char>, message_ids: int) -> Option<Seq<char>> {
    if trim(session_id).len() == 0 || message_ids == 0 {
        None
    } else {
        match strip_prefix(session_id, "local:"@) {
            Some(rest) => Some(trim(rest)),
            None => Some(trim(session_id)),
        }
    }
}

/// Checks a request to delete messages and gives the session that it means.
pub fn check_delete_request(session_id: &str, message_ids: &Vec<String>) -> (r: Result<
    String,
    String,
>)
    ensures
        match r {
            Ok(s) => delete_session(session_id@, message_ids.len() as int) == Some(s@),
            Err(e) => delete_session(session_id@, message_ids.len() as int) is None && e@
                == "session_id 和 message_ids 不能为空"@,
        },
{
    if trimmed(session_id).as_str().is_empty() || message_ids.len() == 0 {
        return Err("session_id 和 message_ids 不能为空".to_owned());
    }
    match stripped_prefix(session_id, "local:") {
        Some(rest) => Ok(trimmed(rest.as_str())),
        None => Ok(trimmed(session_id)),
    }
}

/// The lines of a text, each with its line end.
pub open spec fn lines_with_ends(s: Seq<char>) -> Seq<Seq<char>>
    decreases s.len(),
{
    let k = find_sep(s, Sep::Char('\n'));
    if s.len() == 0 {
        Seq::empty()
    } else if 0 <= k < s.len() {
        seq![s.subrange(0, k + 1)] + lines_with_ends(s.subrange(k + 1, s.len() as int))
    } else {
        seq![s]
    }
}

/// A line without its line end.
pub open spec fn line_body(s: Seq<char>) -> Seq<char>
    decreases s.len(),
{
    if s.len() > 0 && (s.last() == '\n' || s.last() == '\r') {
        line_body(s.drop_last())
    } else {
        s
    }
}

/// A line of a rollout with the record in it, where it holds one.
#[derive(Debug)]
pub struct RolloutLine {
    pub text: String,
    pub record: Option<Json>,
}

#[verifier::ext_equal]
pub struct LineV {
    pub text: Seq<char>,
    pub record: Option<JsonV>,
}

impl View for RolloutLine {
    type V = LineV;

    open spec fn view(&self) -> LineV {
        LineV { text: self.text@, record: own_view(self.record) }
    }
}

pub open spec fn line_list(v: Seq<RolloutLine>) -> Seq<LineV> {
    Seq::new(v.len(), |i: int| v[i]@)
}

pub open spec fn line_texts(v: Seq<LineV>) -> Seq<Seq<char>> {
    Seq::new(v.len(), |i: int| v[i].text)
}

/// A line and what its text parses to.
pub open spec fn read_line(text: Seq<char>) -> LineV {
    LineV {
        text,
        record: match text_parsed(line_body(text)) {
            Ok(v) => Some(v),
            Err(_) => None,
        },
    }
}

pub open spec fn read_lines(contents: Seq<char>) -> Seq<LineV> {
    Seq::new(
        lines_with_ends(contents).len(),
        |i: int| read_line(lines_with_ends(contents)[i]),
    )
}

/// The turn that a record starts.
pub open spec fn started_turn(record: Option<JsonV>) -> Option<Seq<char>> {
    match record {
        None => None,
        Some(value) => match value.get("payload"@) {
            None => None,
            Some(payload) => if value.get_str("type"@) == Some("event_msg"@) && payload.get_str(
                "type"@,
            ) == Some("task_started"@) {
                payload.get_str("turn_id"@)
            } else {
                None
            },
        },
    }
}

/// The record is a summary that stands for earlier turns and cannot be edited.
pub open spec fn compacted_summary(record: Option<JsonV>) -> bool {
    match record {
        None => false,
        Some(value) => value.get_str("type"@) == Some("compacted"@) && match value.get2(
            "payload"@,
            "replacement_history"@,
        ) {
            Some(JsonV::Array(items)) => exists|i: int|
                0 <= i < items.len() && (#[trigger] items[i]).get_str("type"@) == Some(
                    "compaction"@,
                ),
            _ => false,
        },
    }
}

fn task_started_turn_id(record: &Option<Json>) -> (r: Option<String>)
    ensures
        string_view(r) == started_turn(own_view(*record)),
{
    let value = match record {
        None => {
            return None;
        },
        Some(v) => v,
    };
    let payload = match value.get("payload") {
        None => {
            return None;
        },
        Some(p) => p,
    };
    let is_event = match value.get_str("type") {
        Some(t) => str_eq(t, "event_msg"),
        None => false,
    };
    let is_start = match payload.get_str("type") {
        Some(t) => str_eq(t, "task_started"),
        None => false,
    };
    if is_event && is_start {
        owned(payload.get_str("turn_id"))
    } else {
        None
    }
}

fn is_compacted_summary(record: &Option<Json>) -> (r: bool)
    ensures
        r == compacted_summary(own_view(*record)),
{
    let value = match record {
        None => {
            return false;
        },
        Some(v) => v,
    };
    let is_compacted = match value.get_str("type") {
        Some(t) => str_eq(t, "compacted"),
        None => false,
    };
    if !is_compacted {
        return false;
    }
    let items = match value.get2("payload", "replacement_history") {
        None => {
            return false;
        },
        Some(history) => match history.as_array() {
            None => {
                return false;
            },
            Some(items) => items,
        },
    };
    let ghost all = views(items@);
    let mut i: usize = 0;
    while i < items.len()
        invariant
            i <= items.len(),
            all == views(items@),
            compacted_summary(own_view(*record)) == exists|j: int|
                0 <= j < all.len() && (#[trigger] all[j]).get_str("type"@) == Some("compaction"@),
            forall|j: int|
                0 <= j < i ==> (#[trigger] all[j]).get_str("type"@) != Some("compaction"@),
        decreases items.len() - i,
    {
        proof {
            assert(all[i as int] == items@[i as int]@);
        }
        let found = match items[i].get_str("type") {
            Some(t) => str_eq(t, "compaction"),
            None => false,
        };
        if found {
            proof {
                assert(all[i as int].get_str("type"@) == Some("compaction"@));
            }
            return true;
        }
        i = i + 1;
    }
    false
}

/// How far an edit has come.
#[verifier::ext_equal]
pub struct EditV {
    /// The turn that runs is one to delete.
    pub removing: bool,
    /// A turn to delete has been met.
    pub seen: bool,
    /// The turns to delete that were met, each once.
    pub found: Seq<Seq<char>>,
    pub kept: Seq<LineV>,
}

pub open spec fn fresh_edit() -> EditV {
    EditV { removing: false, seen: false, found: Seq::empty(), kept: Seq::empty() }
}

/// An edit after one more line. From the first deleted turn on, summaries go too: they may hold
/// what was deleted.
pub open spec fn edit_step(e: EditV, line: LineV, selected: Seq<Seq<char>>) -> EditV {
    let e2 = match started_turn(line.record) {
        Some(turn) => if selected.contains(turn) {
            EditV {
                removing: true,
                seen: true,
                found: if e.found.contains(turn) {
                    e.found
                } else {
                    e.found.push(turn)
                },
                kept: e.kept,
            }
        } else {
            EditV { removing: false, ..e }
        },
        None => e,
    };
    if e2.removing || (e2.seen && compacted_summary(line.record)) {
        e2
    } else {
        EditV { kept: e2.kept.push(line), ..e2 }
    }
}

/// The edit of the first lines.
pub open spec fn edit(lines: Seq<LineV>, selected: Seq<Seq<char>>, n: int) -> EditV
    decreases n,
{
    if n <= 0 {
        fresh_edit()
    } else {
        edit_step(edit(lines, selected, n - 1), lines[n - 1], selected)
    }
}

pub open spec fn edited(lines: Seq<LineV>, selected: Seq<Seq<char>>) -> EditV {
    edit(lines, selected, lines.len() as int)
}

/// A rollout without the deleted turns.
#[derive(Debug, Clone)]
pub struct RolloutEdit {
    pub deleted: usize,
    pub text: String,
}

/// The text of an edited rollout, with how many turns went; nothing where none was met.
pub open spec fn edit_result(e: EditV) -> Option<(int, Seq<char>)> {
    if e.found.len() == 0 {
        None
    } else {
        Some((e.found.len() as int, joined(line_texts(e.kept), ""@)))
    }
}

pub open spec fn edit_view(r: Option<RolloutEdit>) -> Option<(int, Seq<char>)> {
    match r {
        None => None,
        Some(x) => Some((x.deleted as int, x.text@)),
    }
}

/// Deletes turns from the lines of a rollout.
pub fn delete_turns(lines: &Vec<RolloutLine>, selected: &Vec<String>) -> (r: Option<RolloutEdit>)
    ensures
        edit_view(r) == edit_result(edited(line_list(lines@), texts(selected@))),
{
    let ghost all = line_list(lines@);
    let ghost chosen = texts(selected@);
    let mut removing = false;
    let mut seen = false;
    let mut found: Vec<String> = Vec::new();
    let mut kept: Vec<String> = Vec::new();
    let mut i: usize = 0;
    proof {
        assert(texts(kept@) =~= line_texts(fresh_edit().kept));
        assert(texts(found@) =~= fresh_edit().found);
    }
    while i < lines.len()
        invariant
            i <= lines.len(),
            all == line_list(lines@),
            chosen == texts(selected@),
            removing == edit(all, chosen, i as int).removing,
            seen == edit(all, chosen, i as int).seen,
            texts(found@) == edit(all, chosen, i as int).found,
            texts(kept@) == line_texts(edit(all, chosen, i as int).kept),
        decreases lines.len() - i,
    {
        let line = &lines[i];
        let ghost e = edit(all, chosen, i as int);
        proof {
            assert(all[i as int] == line@);
        }
        if let Some(turn) = task_started_turn_id(&line.record) {
            removing = list_has(selected, turn.as_str());
            proof {
                listed_is_contained(selected@, turn@);
                listed_is_contained(found@, turn@);
            }
            if removing {
                seen = true;
                if !list_has(&found, turn.as_str()) {
                    proof {
                        texts_push(found@, turn);
                    }
                    found.push(turn);
                }
            }
        }
        if !(seen && is_compacted_summary(&line.record)) && !removing {
            let text = line.text.clone();
            proof {
                texts_push(kept@, text);
                assert(line_texts(e.kept.push(line@)) =~= line_texts(e.kept).push(text@));
            }
            kept.push(text);
        }
        i = i + 1;
    }
    proof {
        assert(texts(found@).len() == found.len());
    }
    if found.len() == 0 {
        return None;
    }
    Some(RolloutEdit { deleted: found.len(), text: join(&kept, "") })
}

fn body_of(line: &str) -> (r: String)
    ensures
        r@ == line_body(line@),
{
    let v = chars_of(line);
    let mut end = v.len();
    proof {
        assert(v@.subrange(0, end as int) =~= v@);
    }
    while end > 0 && (v[end - 1] == '\n' || v[end - 1] == '\r')
        invariant
            end <= v.len(),
            line_body(v@.subrange(0, end as int)) == line_body(v@),
        decreases end,
    {
        proof {
            assert(v@.subrange(0, end as int).drop_last() =~= v@.subrange(0, end - 1));
        }
        end = end - 1;
    }
    text_of(&v, 0, end)
}

/// Splits a text into its lines, each with its line end.
pub fn split_lines(contents: &str) -> (r: Vec<String>)
    ensures
        texts(r@) == lines_with_ends(contents@),
{
    let v = chars_of(contents);
    let ghost all = v@;
    let mut out: Vec<String> = Vec::new();
    let mut from: usize = 0;
    proof {
        assert(all.subrange(0, all.len() as int) =~= all);
        assert(texts(out@) + lines_with_ends(all) =~= lines_with_ends(all));
    }
    while from < v.len()
        invariant
            from <= v.len(),
            all == v@,
            texts(out@) + lines_with_ends(all.subrange(from as int, all.len() as int))
                == lines_with_ends(all),
        decreases v.len() - from,
    {
        let mut k = from;
        while k < v.len() && v[k] != '\n'
            invariant
                from <= k <= v.len(),
                all == v@,
                forall|j: int| from <= j < k ==> #[trigger] all[j] != '\n',
            decreases v.len() - k,
        {
            k = k + 1;
        }
        let ghost rest = all.subrange(from as int, all.len() as int);
        proof {
            assert forall|j: int| 0 <= j < k - from implies !is_sep(
                Sep::Char('\n'),
                #[trigger] rest[j],
            ) by {
                assert(rest[j] == all[from + j]);
            }
            find_sep_is_first(rest, Sep::Char('\n'), k - from);
        }
        let end = if k < v.len() {
            k + 1
        } else {
            k
        };
        let piece = text_of(&v, from, end);
        proof {
            assert(rest.subrange(0, end - from) =~= piece@);
            assert(rest.subrange(end - from, rest.len() as int) =~= all.subrange(
                end as int,
                all.len() as int,
            ));
            if k >= v.len() {
                assert(lines_with_ends(rest) =~= seq![piece@] + lines_with_ends(
                    all.subrange(end as int, all.len() as int),
                ));
            }
            texts_push(out@, piece);
            assert(texts(out@).push(piece@) + lines_with_ends(
                all.subrange(end as int, all.len() as int),
            ) =~= texts(out@) + lines_with_ends(rest));
        }
        out.push(piece);
        from = end;
    }
    proof {
        assert(texts(out@) + lines_with_ends(all.subrange(from as int, all.len() as int))
            =~= texts(out@));
    }
    out
}

/// Deletes turns from a rollout's text.
pub fn delete_turns_from_rollout(original: &str, selected: &Vec<String>) -> (r: Option<RolloutEdit>)
    ensures
        edit_view(r) == edit_result(edited(read_lines(original@), texts(selected@))),
{
    let pieces = split_lines(original);
    let mut lines: Vec<RolloutLine> = Vec::new();
    let mut i: usize = 0;
    while i < pieces.len()
        invariant
            i <= pieces.len(),
            texts(pieces@) == lines_with_ends(original@),
            line_list(lines@) == read_lines(original@).subrange(0, i as int),
        decreases pieces.len() - i,
    {
        proof {
            assert(texts(pieces@)[i as int] == pieces@[i as int]@);
        }
        let record = match parse_text(body_of(pieces[i].as_str()).as_str()) {
            Ok(v) => Some(v),
            Err(_) => None,
        };
        let ghost before = lines@;
        let line = RolloutLine { text: pieces[i].clone(), record };
        lines.push(line);
        i = i + 1;
        proof {
            assert(read_lines(original@)[i - 1] == read_line(pieces@[i - 1]@));
            assert(line_list(lines@) =~= line_list(before).push(line@));
            assert(line_list(lines@) =~= read_lines(original@).subrange(0, i as int));
        }
    }
    proof {
        assert(texts(pieces@).len() == pieces.len());
        assert(read_lines(original@).subrange(0, i as int) =~= read_lines(original@));
    }
    delete_turns(&lines, selected)
}

/// The lines of a text make up the text.
pub proof fn lines_make_up_the_text(s: Seq<char>)
    ensures
        joined(lines_with_ends(s), ""@) == s,
    decreases s.len(),
{
    reveal_strlit("");
    let k = find_sep(s, Sep::Char('\n'));
    if s.len() > 0 && 0 <= k < s.len() {
        let rest = s.subrange(k + 1, s.len() as int);
        lines_make_up_the_text(rest);
        lemma_joined_front(s.subrange(0, k + 1), lines_with_ends(rest));
        assert(s =~= s.subrange(0, k + 1) + rest);
    } else {
        assert(joined(lines_with_ends(s), ""@) =~= s);
    }
}

proof fn lemma_joined_front(first: Seq<char>, rest: Seq<Seq<char>>)
    ensures
        joined(seq![first] + rest, ""@) == first + joined(rest, ""@),
    decreases rest.len(),
{
    reveal_strlit("");
    let all = seq![first] + rest;
    if rest.len() == 0 {
        assert(joined(all, ""@) =~= first + joined(rest, ""@));
    } else {
        lemma_joined_front(first, rest.drop_last());
        assert(all.drop_last() =~= seq![first] + rest.drop_last());
        assert(joined(all, ""@) =~= first + joined(rest.drop_last(), ""@) + rest.last());
        if rest.len() == 1 {
            assert(rest.drop_last() =~= Seq::empty());
            assert(joined(all, ""@) =~= first + joined(rest, ""@));
        } else {
            assert(joined(rest, ""@) =~= joined(rest.drop_last(), ""@) + rest.last());
            assert(joined(all, ""@) =~= first + joined(rest, ""@));
        }
    }
}

/// Until a turn to delete is met, every line stays as it was.
pub proof fn without_a_selected_turn_every_line_stays(
    lines: Seq<LineV>,
    selected: Seq<Seq<char>>,
    n: int,
)
    requires
        0 <= n <= lines.len(),
        edit(lines, selected, n).found.len() == 0,
    ensures
        edit(lines, selected, n).kept == lines.subrange(0, n),
        !edit(lines, selected, n).seen,
        !edit(lines, selected, n).removing,
    decreases n,
{
    if n > 0 {
        let e = edit(lines, selected, n - 1);
        if e.found.len() > 0 {
            assert(edit(lines, selected, n).found.len() >= e.found.len());
        }
        without_a_selected_turn_every_line_stays(lines, selected, n - 1);
        match started_turn(lines[n - 1].record) {
            Some(turn) => {
                if selected.contains(turn) {
                    assert(edit(lines, selected, n).found.len() > 0);
                }
            },
            None => {},
        }
        assert(lines.subrange(0, n) =~= lines.subrange(0, n - 1).push(lines[n - 1]));
    } else {
        assert(lines.subrange(0, n) =~= Seq::empty());
    }
}

/// No line that is left starts a deleted turn.
pub proof fn a_deleted_turn_is_gone(lines: Seq<LineV>, selected: Seq<Seq<char>>, n: int)
    requires
        0 <= n <= lines.len(),
    ensures
        forall|i: int|
            0 <= i < edit(lines, selected, n).kept.len() ==> match started_turn(
                (#[trigger] edit(lines, selected, n).kept[i]).record,
            ) {
                Some(turn) => !selected.contains(turn),
                None => true,
            },
    decreases n,
{
    if n > 0 {
        a_deleted_turn_is_gone(lines, selected, n - 1);
        let e = edit(lines, selected, n - 1);
        let after = edit(lines, selected, n);
        assert forall|i: int| 0 <= i < after.kept.len() implies match started_turn(
            (#[trigger] after.kept[i]).record,
        ) {
            Some(turn) => !selected.contains(turn),
            None => true,
        } by {
            if i < e.kept.len() {
                assert(after.kept[i] == e.kept[i]);
            }
        }
    }
}

proof fn lemma_nothing_found(lines: Seq<LineV>, selected: Seq<Seq<char>>, n: int)
    requires
        0 <= n <= lines.len(),
        forall|i: int|
            0 <= i < lines.len() ==> match started_turn((#[trigger] lines[i]).record) {
                Some(turn) => !selected.contains(turn),
                None => true,
            },
    ensures
        edit(lines, selected, n).found.len() == 0,
    decreases n,
{
    if n > 0 {
        lemma_nothing_found(lines, selected, n - 1);
        let _ = lines[n - 1];
    }
}

/// Deleting the same turns from what a deletion left finds nothing and changes nothing.
pub proof fn a_second_deletion_finds_nothing(lines: Seq<LineV>, selected: Seq<Seq<char>>)
    ensures
        edit_result(edited(edited(lines, selected).kept, selected)) is None,
        edited(edited(lines, selected).kept, selected).kept == edited(lines, selected).kept,
{
    let kept = edited(lines, selected).kept;
    a_deleted_turn_is_gone(lines, selected, lines.len() as int);
    lemma_nothing_found(kept, selected, kept.len() as int);
    without_a_selected_turn_every_line_stays(kept, selected, kept.len() as int);
    assert(kept.subrange(0, kept.len() as int) =~= kept);
}

/// A line with its line end, and with no other.
pub open spec fn is_full_line(line: Seq<char>) -> bool {
    line.len() > 0 && line.last() == '\n' && forall|j: int|
        0 <= j < line.len() - 1 ==> #[trigger] line[j] != '\n'
}

/// A last line without a line end.
pub open spec fn is_open_line(line: Seq<char>) -> bool {
    line.len() > 0 && forall|j: int| 0 <= j < line.len() ==> #[trigger] line[j] != '\n'
}

/// Lines as they stand in a text: only the last may lack its line end.
pub open spec fn are_lines(lines: Seq<Seq<char>>) -> bool {
    forall|i: int|
        0 <= i < lines.len() ==> is_full_line(#[trigger] lines[i]) || (i == lines.len() - 1
            && is_open_line(lines[i]))
}

proof fn lemma_first_end(s: Seq<char>)
    ensures
        0 <= find_sep(s, Sep::Char('\n')) <= s.len(),
        find_sep(s, Sep::Char('\n')) < s.len() ==> s[find_sep(s, Sep::Char('\n'))] == '\n',
        forall|j: int| 0 <= j < find_sep(s, Sep::Char('\n')) ==> #[trigger] s[j] != '\n',
    decreases s.len(),
{
    if s.len() > 0 && s[0] != '\n' {
        let rest = s.subrange(1, s.len() as int);
        lemma_first_end(rest);
        assert forall|j: int| 0 <= j < find_sep(s, Sep::Char('\n')) implies #[trigger] s[j]
            != '\n' by {
            if j > 0 {
                assert(rest[j - 1] == s[j]);
            }
        }
    }
}

proof fn lemma_split_gives_lines(s: Seq<char>)
    ensures
        are_lines(lines_with_ends(s)),
    decreases s.len(),
{
    let k = find_sep(s, Sep::Char('\n'));
    lemma_first_end(s);
    if s.len() > 0 && k < s.len() {
        let first = s.subrange(0, k + 1);
        let rest = lines_with_ends(s.subrange(k + 1, s.len() as int));
        lemma_split_gives_lines(s.subrange(k + 1, s.len() as int));
        let all = lines_with_ends(s);
        assert(all == seq![first] + rest);
        assert forall|i: int| 0 <= i < all.len() implies is_full_line(#[trigger] all[i]) || (i
            == all.len() - 1 && is_open_line(all[i])) by {
            if i > 0 {
                assert(all[i] == rest[i - 1]);
            }
        }
    }
}

proof fn lemma_lines_are_split_again(lines: Seq<Seq<char>>)
    requires
        are_lines(lines),
    ensures
        lines_with_ends(joined(lines, ""@)) == lines,
    decreases lines.len(),
{
    if lines.len() > 0 {
        let first = lines[0];
        let rest = lines.subrange(1, lines.len() as int);
        assert(lines =~= seq![first] + rest);
        lemma_joined_front(first, rest);
        assert forall|i: int| 0 <= i < rest.len() implies is_full_line(#[trigger] rest[i]) || (i
            == rest.len() - 1 && is_open_line(rest[i])) by {
            assert(rest[i] == lines[i + 1]);
        }
        lemma_lines_are_split_again(rest);
        let tail = joined(rest, ""@);
        let text = first + tail;
        if is_full_line(first) {
            find_sep_is_first(text, Sep::Char('\n'), first.len() - 1);
            assert(text.subrange(0, first.len() as int) =~= first);
            assert(text.subrange(first.len() as int, text.len() as int) =~= tail);
        } else {
            assert(rest =~= Seq::empty());
            assert(text =~= first);
            find_sep_is_first(text, Sep::Char('\n'), first.len() as int);
            assert(lines_with_ends(text) =~= lines);
        }
    }
}

proof fn lemma_kept_lines(contents: Seq<char>, selected: Seq<Seq<char>>, n: int)
    requires
        0 <= n <= read_lines(contents).len(),
    ensures
        ({
            let kept = edit(read_lines(contents), selected, n).kept;
            forall|i: int|
                0 <= i < kept.len() ==> kept[i] == read_line((#[trigger] kept[i]).text) && (
                is_full_line(kept[i].text) || (n == read_lines(contents).len() && i == kept.len()
                    - 1 && is_open_line(kept[i].text)))
        }),
    decreases n,
{
    let lines = read_lines(contents);
    if n > 0 {
        lemma_kept_lines(contents, selected, n - 1);
        lemma_split_gives_lines(contents);
        let before = edit(lines, selected, n - 1).kept;
        let kept = edit(lines, selected, n).kept;
        let texts = lines_with_ends(contents);
        assert(is_full_line(texts[n - 1]) || (n == texts.len() && is_open_line(texts[n - 1])));
        assert(lines[n - 1] == read_line(texts[n - 1]));
        assert forall|i: int| 0 <= i < kept.len() implies kept[i] == read_line(
            (#[trigger] kept[i]).text,
        ) && (is_full_line(kept[i].text) || (n == lines.len() && i == kept.len() - 1
            && is_open_line(kept[i].text))) by {
            if i < before.len() {
                assert(kept[i] == before[i]);
            }
        }
    }
}

/// The text that a deletion leaves, read again, has the lines that were left; deleting the same
/// turns from it finds nothing.
pub proof fn a_second_deletion_from_the_text_finds_nothing(
    contents: Seq<char>,
    selected: Seq<Seq<char>>,
)
    ensures
        ({
            let left = joined(line_texts(edited(read_lines(contents), selected).kept), ""@);
            &&& read_lines(left) == edited(read_lines(contents), selected).kept
            &&& edit_result(edited(read_lines(left), selected)) is None
        }),
{
    let lines = read_lines(contents);
    let kept = edited(lines, selected).kept;
    let left = joined(line_texts(kept), ""@);
    lemma_kept_lines(contents, selected, lines.len() as int);
    assert forall|i: int| 0 <= i < line_texts(kept).len() implies is_full_line(
        #[trigger] line_texts(kept)[i],
    ) || (i == line_texts(kept).len() - 1 && is_open_line(line_texts(kept)[i])) by {
        assert(line_texts(kept)[i] == kept[i].text);
    }
    lemma_lines_are_split_again(line_texts(kept));
    assert forall|i: int| 0 <= i < kept.len() implies #[trigger] read_lines(left)[i] == kept[i] by {
        assert(line_texts(kept)[i] == kept[i].text);
        assert(kept[i] == read_line(kept[i].text));
    }
    assert(read_lines(left) =~= kept);
    a_second_deletion_finds_nothing(lines, selected);
}

/// The record of the line starts a turn.
pub open spec fn begins(line: LineV, turn: Seq<char>) -> bool {
    line.record matches Some(value) && value.get("type"@) == Some(JsonV::Str("event_msg"@))
        && value.get2("payload"@, "type"@) == Some(JsonV::Str("task_started"@)) && value.get2(
        "payload"@,
        "turn_id"@,
    ) == Some(JsonV::Str(turn))
}

/// The line lies in a selected turn: the last turn that starts at it or before it is selected.
pub open spec fn lies_in_selected(lines: Seq<LineV>, selected: Seq<Seq<char>>, i: int) -> bool {
    exists|k: int, turn: Seq<char>|
        0 <= k <= i && begins(lines[k], turn) && selected.contains(turn) && no_start_between(
            lines,
            k,
            i,
        )
}

/// No turn starts behind the one line, up to the other.
pub open spec fn no_start_between(lines: Seq<LineV>, k: int, i: int) -> bool {
    forall|j: int, turn: Seq<char>| k < j <= i ==> !#[trigger] begins(lines[j], turn)
}

/// A selected turn starts at the line or before it.
pub open spec fn selected_has_started(lines: Seq<LineV>, selected: Seq<Seq<char>>, i: int) -> bool {
    exists|k: int, turn: Seq<char>|
        0 <= k <= i && #[trigger] begins(lines[k], turn) && selected.contains(turn)
}

/// The record of the line is of the type "compacted", and an item of the history in it is of the
/// type "compaction".
pub open spec fn holds_summary(line: LineV) -> bool {
    match line.record {
        None => false,
        Some(value) => value.get("type"@) == Some(JsonV::Str("compacted"@)) && match value.get2(
            "payload"@,
            "replacement_history"@,
        ) {
            Some(JsonV::Array(items)) => exists|j: int|
                0 <= j < items.len() && (#[trigger] items[j]).get("type"@) == Some(
                    JsonV::Str("compaction"@),
                ),
            _ => false,
        },
    }
}

/// A line stays unless it lies in a selected turn, or holds a summary and a selected turn has
/// started.
pub open spec fn stays(lines: Seq<LineV>, selected: Seq<Seq<char>>, i: int) -> bool {
    !lies_in_selected(lines, selected, i) && !(holds_summary(lines[i]) && selected_has_started(
        lines,
        selected,
        i,
    ))
}

/// The places of some of the first lines, in order.
pub open spec fn are_places(at: Seq<int>, n: int) -> bool {
    (forall|a: int, b: int| 0 <= a < b < at.len() ==> #[trigger] at[a] < #[trigger] at[b])
        && forall|a: int| 0 <= a < at.len() ==> 0 <= #[trigger] at[a] < n
}

/// The lines that were kept are those at the places, in order and unchanged, and the places are
/// those of the lines that stay.
pub open spec fn kept_at(
    lines: Seq<LineV>,
    selected: Seq<Seq<char>>,
    n: int,
    kept: Seq<LineV>,
    at: Seq<int>,
) -> bool {
    &&& are_places(at, n)
    &&& kept.len() == at.len()
    &&& forall|a: int| 0 <= a < at.len() ==> kept[a] == lines[#[trigger] at[a]]
    &&& forall|i: int| 0 <= i < n ==> (#[trigger] at.contains(i) <==> stays(lines, selected, i))
}

proof fn lemma_started_is_begun(line: LineV, turn: Seq<char>)
    ensures
        started_turn(line.record) == Some(turn) <==> begins(line, turn),
{
}

proof fn lemma_edit_state(lines: Seq<LineV>, selected: Seq<Seq<char>>, n: int)
    requires
        0 <= n <= lines.len(),
    ensures
        edit(lines, selected, n).removing == (n > 0 && lies_in_selected(lines, selected, n - 1)),
        edit(lines, selected, n).seen == (n > 0 && selected_has_started(lines, selected, n - 1)),
    decreases n,
{
    if n > 0 {
        lemma_edit_state(lines, selected, n - 1);
        let line = lines[n - 1];
        match started_turn(line.record) {
            Some(turn) => {
                lemma_started_is_begun(line, turn);
                if selected.contains(turn) {
                    assert(no_start_between(lines, n - 1, n - 1));
                    assert(begins(lines[n - 1], turn) && selected.contains(turn));
                    assert(lies_in_selected(lines, selected, n - 1));
                    assert(selected_has_started(lines, selected, n - 1));
                } else {
                    if lies_in_selected(lines, selected, n - 1) {
                        let (k, t) = choose|k: int, t: Seq<char>|
                            0 <= k <= n - 1 && begins(lines[k], t) && selected.contains(t)
                                && no_start_between(lines, k, n - 1);
                        if k < n - 1 {
                            assert(!begins(lines[n - 1], turn));
                        } else {
                            lemma_started_is_begun(line, t);
                        }
                    }
                }
                if selected_has_started(lines, selected, n - 1) {
                    let (k, t) = choose|k: int, t: Seq<char>|
                        0 <= k <= n - 1 && #[trigger] begins(lines[k], t) && selected.contains(t);
                    if k == n - 1 {
                        lemma_started_is_begun(line, t);
                    } else {
                        assert(selected_has_started(lines, selected, n - 2));
                    }
                }
                if n > 1 && selected_has_started(lines, selected, n - 2) {
                    let (k, t) = choose|k: int, t: Seq<char>|
                        0 <= k <= n - 2 && #[trigger] begins(lines[k], t) && selected.contains(t);
                    assert(begins(lines[k], t) && selected.contains(t));
                    assert(selected_has_started(lines, selected, n - 1));
                }
            },
            None => {
                assert forall|t: Seq<char>| !#[trigger] begins(line, t) by {
                    lemma_started_is_begun(line, t);
                }
                if n > 1 && lies_in_selected(lines, selected, n - 2) {
                    let (k, t) = choose|k: int, t: Seq<char>|
                        0 <= k <= n - 2 && begins(lines[k], t) && selected.contains(t)
                            && no_start_between(lines, k, n - 2);
                    assert(no_start_between(lines, k, n - 1));
                    assert(begins(lines[k], t) && selected.contains(t));
                }
                if lies_in_selected(lines, selected, n - 1) {
                    let (k, t) = choose|k: int, t: Seq<char>|
                        0 <= k <= n - 1 && begins(lines[k], t) && selected.contains(t)
                            && no_start_between(lines, k, n - 1);
                    assert(no_start_between(lines, k, n - 2));
                    assert(begins(lines[k], t) && selected.contains(t));
                    assert(lies_in_selected(lines, selected, n - 2));
                }
                if n > 1 && selected_has_started(lines, selected, n - 2) {
                    let (k, t) = choose|k: int, t: Seq<char>|
                        0 <= k <= n - 2 && #[trigger] begins(lines[k], t) && selected.contains(t);
                    assert(begins(lines[k], t) && selected.contains(t));
                }
                if selected_has_started(lines, selected, n - 1) {
                    let (k, t) = choose|k: int, t: Seq<char>|
                        0 <= k <= n - 1 && #[trigger] begins(lines[k], t) && selected.contains(t);
                    assert(begins(lines[k], t) && selected.contains(t));
                    assert(selected_has_started(lines, selected, n - 2));
                }
            },
        }
    }
}

/// Exactly the lines that stay are kept, in order and unchanged: those that do not lie in a selected
/// turn, but for the summaries behind the first selected turn.
pub proof fn exactly_the_other_lines_are_kept(
    lines: Seq<LineV>,
    selected: Seq<Seq<char>>,
    n: int,
) -> (at: Seq<int>)
    requires
        0 <= n <= lines.len(),
    ensures
        kept_at(lines, selected, n, edit(lines, selected, n).kept, at),
    decreases n,
{
    if n == 0 {
        Seq::empty()
    } else {
        let before = exactly_the_other_lines_are_kept(lines, selected, n - 1);
        lemma_edit_state(lines, selected, n);
        let line = lines[n - 1];
        assert(compacted_summary(line.record) == holds_summary(line)) by {
            if let Some(value) = line.record {
                if let Some(JsonV::Array(items)) = value.get2(
                    "payload"@,
                    "replacement_history"@,
                ) {
                    assert forall|j: int| 0 <= j < items.len() implies (
                    #[trigger] items[j]).get_str("type"@) == Some("compaction"@) <==> items[j].get(
                        "type"@,
                    ) == Some(JsonV::Str("compaction"@)) by {}
                    if exists|j: int|
                        0 <= j < items.len() && (#[trigger] items[j]).get_str("type"@) == Some(
                            "compaction"@,
                        ) {
                        let j = choose|j: int|
                            0 <= j < items.len() && (#[trigger] items[j]).get_str("type"@) == Some(
                                "compaction"@,
                            );
                        assert(items[j].get("type"@) == Some(JsonV::Str("compaction"@)));
                    }
                    if exists|j: int|
                        0 <= j < items.len() && (#[trigger] items[j]).get("type"@) == Some(
                            JsonV::Str("compaction"@),
                        ) {
                        let j = choose|j: int|
                            0 <= j < items.len() && (#[trigger] items[j]).get("type"@) == Some(
                                JsonV::Str("compaction"@),
                            );
                        assert(items[j].get_str("type"@) == Some("compaction"@));
                    }
                }
            }
        }
        let at = if stays(lines, selected, n - 1) {
            before.push(n - 1)
        } else {
            before
        };
        let kept = edit(lines, selected, n).kept;
        assert forall|i: int| 0 <= i < n implies (#[trigger] at.contains(i) <==> stays(
            lines,
            selected,
            i,
        )) by {
            if at.contains(i) {
                let a = choose|a: int| 0 <= a < at.len() && at[a] == i;
                if a < before.len() {
                    assert(before[a] == i);
                    assert(before.contains(i));
                }
            }
            if before.contains(i) {
                let a = choose|a: int| 0 <= a < before.len() && before[a] == i;
                assert(at[a] == i);
                assert(0 <= before[a] < n - 1);
            }
            if i == n - 1 && stays(lines, selected, i) {
                assert(at[before.len() as int] == i);
            }
            if i < n - 1 {
                assert(before.contains(i) <==> stays(lines, selected, i));
            }
        }
        at
    }
}

/// A turn is counted as deleted exactly where it is selected and starts in some line, and each is
/// counted once.
pub proof fn every_deleted_turn_is_counted_once(lines: Seq<LineV>, selected: Seq<Seq<char>>, n: int)
    requires
        0 <= n <= lines.len(),
    ensures
        edit(lines, selected, n).found.no_duplicates(),
        forall|turn: Seq<char>| #[trigger]
            edit(lines, selected, n).found.contains(turn) <==> selected.contains(turn)
                && starts_in(lines, turn, n),
    decreases n,
{
    if n > 0 {
        every_deleted_turn_is_counted_once(lines, selected, n - 1);
        let before = edit(lines, selected, n - 1).found;
        let after = edit(lines, selected, n).found;
        let line = lines[n - 1];
        assert forall|turn: Seq<char>| #[trigger] after.contains(turn) <==> selected.contains(turn)
            && starts_in(lines, turn, n) by {
            lemma_started_is_begun(line, turn);
            assert(before.contains(turn) <==> selected.contains(turn) && starts_in(
                lines,
                turn,
                n - 1,
            ));
            if starts_in(lines, turn, n) {
                let i = choose|i: int| 0 <= i < n && #[trigger] begins(lines[i], turn);
                if i < n - 1 {
                    assert(starts_in(lines, turn, n - 1));
                }
            }
            if starts_in(lines, turn, n - 1) {
                let i = choose|i: int| 0 <= i < n - 1 && #[trigger] begins(lines[i], turn);
                assert(begins(lines[i], turn));
                assert(starts_in(lines, turn, n));
            }
            if begins(line, turn) {
                assert(starts_in(lines, turn, n));
                if selected.contains(turn) && !before.contains(turn) {
                    assert(after[before.len() as int] == turn);
                }
            }
            if before.contains(turn) {
                let j = choose|j: int| 0 <= j < before.len() && before[j] == turn;
                assert(after[j] == turn);
            }
            if after.contains(turn) {
                let j = choose|j: int| 0 <= j < after.len() && after[j] == turn;
                if j < before.len() {
                    assert(before[j] == turn);
                }
            }
        }
    }
}

/// The turn starts in one of the first lines.
pub open spec fn starts_in(lines: Seq<LineV>, turn: Seq<char>, n: int) -> bool {
    exists|i: int| 0 <= i < n && #[trigger] begins(lines[i], turn)
}

proof fn lemma_joined_is_flat(pieces: Seq<Seq<char>>)
    ensures
        joined(pieces, ""@) == pieces.flatten(),
    decreases pieces.len(),
{
    if pieces.len() == 0 {
        assert(joined(pieces, ""@) =~= pieces.flatten());
    } else {
        let rest = pieces.drop_first();
        assert(pieces =~= seq![pieces[0]] + rest);
        lemma_joined_front(pieces[0], rest);
        lemma_joined_is_flat(rest);
    }
}

/// A rollout without the selected turns. The lines of the text, each with its end, are looked at one
/// by one; what is left is the text of the lines that stay, one after the other. Where no line starts
/// a selected turn, there is nothing to delete; otherwise as many turns are deleted as were selected
/// and start in the text.
pub proof fn a_deletion_leaves_all_else_alone(contents: Seq<char>, selected: Seq<Seq<char>>) -> (r: (
    Seq<int>,
    Seq<Seq<char>>,
))
    ensures
        ({
            let lines = read_lines(contents);
            let (at, found) = r;
            &&& line_texts(lines).flatten() == contents
            &&& are_lines(line_texts(lines))
            &&& forall|i: int|
                0 <= i < lines.len() ==> (#[trigger] lines[i]).record == match text_parsed(
                    line_body(lines[i].text),
                ) {
                    Ok(v) => Some(v),
                    Err(_) => None,
                }
            &&& are_places(at, lines.len() as int)
            &&& forall|i: int|
                0 <= i < lines.len() ==> (#[trigger] at.contains(i) <==> stays(lines, selected, i))
            &&& found.no_duplicates()
            &&& forall|turn: Seq<char>| #[trigger]
                found.contains(turn) <==> selected.contains(turn) && starts_in(
                    lines,
                    turn,
                    lines.len() as int,
                )
            &&& edit_result(edited(lines, selected)) == if found.len() == 0 {
                None
            } else {
                Some(
                    (
                        found.len() as int,
                        Seq::new(at.len(), |a: int| lines[at[a]].text).flatten(),
                    ),
                )
            }
        }),
{
    let lines = read_lines(contents);
    let n = lines.len() as int;
    let at = exactly_the_other_lines_are_kept(lines, selected, n);
    every_deleted_turn_is_counted_once(lines, selected, n);
    let e = edited(lines, selected);
    lines_make_up_the_text(contents);
    lemma_split_gives_lines(contents);
    assert(line_texts(lines) =~= lines_with_ends(contents));
    lemma_joined_is_flat(lines_with_ends(contents));
    lemma_joined_is_flat(line_texts(e.kept));
    let left = Seq::new(at.len(), |a: int| lines[at[a]].text);
    assert forall|a: int| 0 <= a < at.len() implies #[trigger] left[a] == line_texts(
        e.kept,
    )[a] by {
        assert(e.kept[a] == lines[at[a]]);
    }
    assert(left =~= line_texts(e.kept));
    (at, e.found)
}

/// Where a database keeps messages.
#[derive(Debug, Clone)]
pub struct MessageTarget {
    pub table: String,
    pub id_column: String,
    pub session_column: String,
}

#[verifier::ext_equal]
pub struct TargetV {
    pub table: Seq<char>,
    pub id_column: Seq<char>,
    pub session_column: Seq<char>,
}

impl View for MessageTarget {
    type V = TargetV;

    open spec fn view(&self) -> TargetV {
        TargetV {
            table: self.table@,
            id_column: self.id_column@,
            session_column: self.session_column@,
        }
    }
}

pub open spec fn target_list(v: Seq<MessageTarget>) -> Seq<TargetV> {
    Seq::new(v.len(), |i: int| v[i]@)
}

pub open spec fn is_id_column(name: Seq<char>) -> bool {
    name == "id"@ || name == "message_id"@ || name == "item_id"@
}

pub open spec fn is_session_column(name: Seq<char>) -> bool {
    name == "session_id"@ || name == "thread_id"@
}

/// The first column that a test admits.
pub open spec fn first_column(columns: Seq<Seq<char>>, test: spec_fn(Seq<char>) -> bool) -> Option<
    Seq<char>,
>
    decreases columns.len(),
{
    if columns.len() == 0 {
        None
    } else if test(columns[0]) {
        Some(columns[0])
    } else {
        first_column(columns.subrange(1, columns.len() as int), test)
    }
}

/// Where a table with these columns keeps messages.
pub open spec fn table_target(table: Seq<char>, columns: Seq<Seq<char>>) -> Option<TargetV> {
    match (
        first_column(columns, |c: Seq<char>| is_id_column(c)),
        first_column(columns, |c: Seq<char>| is_session_column(c)),
    ) {
        (Some(id_column), Some(session_column)) => Some(
            TargetV { table, id_column, session_column },
        ),
        _ => None,
    }
}

/// The tables that may keep messages, in the order in which they are looked at.
pub open spec fn message_tables() -> Seq<Seq<char>> {
    seq!["messages"@, "thread_items"@, "items"@]
}

pub fn message_table_names() -> (r: Vec<String>)
    ensures
        texts(r@) == message_tables(),
{
    let mut out: Vec<String> = Vec::new();
    out.push("messages".to_owned());
    out.push("thread_items".to_owned());
    out.push("items".to_owned());
    proof {
        assert(texts(out@) =~= message_tables());
    }
    out
}

fn find_column(columns: &Vec<String>, session: bool) -> (r: Option<String>)
    ensures
        string_view(r) == if session {
            first_column(texts(columns@), |c: Seq<char>| is_session_column(c))
        } else {
            first_column(texts(columns@), |c: Seq<char>| is_id_column(c))
        },
{
    let ghost all = texts(columns@);
    let ghost test = if session {
        |c: Seq<char>| is_session_column(c)
    } else {
        |c: Seq<char>| is_id_column(c)
    };
    let mut i: usize = 0;
    proof {
        assert(all.subrange(0, all.len() as int) =~= all);
    }
    while i < columns.len()
        invariant
            i <= columns.len(),
            all == texts(columns@),
            test == if session {
                |c: Seq<char>| is_session_column(c)
            } else {
                |c: Seq<char>| is_id_column(c)
            },
            first_column(all, test) == first_column(
                all.subrange(i as int, all.len() as int),
                test,
            ),
        decreases columns.len() - i,
    {
        let name = columns[i].as_str();
        let ghost rest = all.subrange(i as int, all.len() as int);
        proof {
            assert(rest[0] == name@);
            assert(rest.subrange(1, rest.len() as int) =~= all.subrange(i + 1, all.len() as int));
        }
        let found = if session {
            str_eq(name, "session_id") || str_eq(name, "thread_id")
        } else {
            str_eq(name, "id") || str_eq(name, "message_id") || str_eq(name, "item_id")
        };
        if found {
            return Some(name.to_owned());
        }
        i = i + 1;
    }
    None
}

/// Where a table with these columns keeps messages.
pub fn message_target(table: &str, columns: &Vec<String>) -> (r: Option<MessageTarget>)
    ensures
        match r {
            Some(t) => table_target(table@, texts(columns@)) == Some(t@),
            None => table_target(table@, texts(columns@)) is None,
        },
{
    match find_column(columns, false) {
        None => None,
        Some(id_column) => match find_column(columns, true) {
            None => None,
            Some(session_column) => Some(
                MessageTarget { table: table.to_owned(), id_column, session_column },
            ),
        },
    }
}

/// A table of a database with its columns; none where the database has no such table.
#[derive(Debug, Clone)]
pub struct TableColumns {
    pub table: String,
    pub columns: Vec<String>,
}

impl View for TableColumns {
    type V = (Seq<char>, Seq<Seq<char>>);

    open spec fn view(&self) -> (Seq<char>, Seq<Seq<char>>) {
        (self.table@, texts(self.columns@))
    }
}

/// The targets among tables.
pub open spec fn targets(tables: Seq<(Seq<char>, Seq<Seq<char>>)>) -> Seq<TargetV>
    decreases tables.len(),
{
    if tables.len() == 0 {
        Seq::empty()
    } else {
        let rest = targets(tables.drop_last());
        match table_target(tables.last().0, tables.last().1) {
            Some(t) => rest.push(t),
            None => rest,
        }
    }
}

pub open spec fn table_list(v: Seq<TableColumns>) -> Seq<(Seq<char>, Seq<Seq<char>>)> {
    Seq::new(v.len(), |i: int| v[i]@)
}

/// Where a database with these tables keeps messages; nothing where it keeps none that is known.
pub fn find_message_targets(tables: &Vec<TableColumns>) -> (r: Option<Vec<MessageTarget>>)
    ensures
        match r {
            Some(found) => target_list(found@) == targets(table_list(tables@)) && found.len() > 0,
            None => targets(table_list(tables@)).len() == 0,
        },
{
    let ghost all = table_list(tables@);
    let mut found: Vec<MessageTarget> = Vec::new();
    let mut i: usize = 0;
    proof {
        assert(target_list(found@) =~= targets(all.subrange(0, 0)));
    }
    while i < tables.len()
        invariant
            i <= tables.len(),
            all == table_list(tables@),
            target_list(found@) == targets(all.subrange(0, i as int)),
        decreases tables.len() - i,
    {
        proof {
            assert(all.subrange(0, i + 1).drop_last() =~= all.subrange(0, i as int));
            assert(all.subrange(0, i + 1).last() == tables@[i as int]@);
        }
        if let Some(target) = message_target(tables[i].table.as_str(), &tables[i].columns) {
            let ghost before = found@;
            found.push(target);
            proof {
                assert(target_list(found@) =~= target_list(before).push(target@));
            }
        }
        i = i + 1;
    }
    proof {
        assert(all.subrange(0, i as int) =~= all);
        assert(target_list(found@).len() == found.len());
    }
    if found.len() > 0 {
        Some(found)
    } else {
        None
    }
}

/// The statement that deletes some messages of one session.
pub open spec fn delete_sql(target: TargetV, messages: nat) -> Seq<char> {
    "DELETE FROM "@ + target.table + " WHERE "@ + target.id_column + " IN ("@ + joined(
        Seq::new(messages, |i: int| "?"@),
        ","@,
    ) + ") AND "@ + target.session_column + " = ?"@
}

/// The statement that deletes some messages of one session. Its values are the messages and then
/// the session.
pub fn delete_statement(target: &MessageTarget, messages: usize) -> (r: String)
    ensures
        r@ == delete_sql(target@, messages as nat),
{
    let mut marks: Vec<String> = Vec::new();
    let mut i: usize = 0;
    while i < messages
        invariant
            i <= messages,
            texts(marks@) == Seq::new(i as nat, |i: int| "?"@),
        decreases messages - i,
    {
        let mark = "?".to_owned();
        proof {
            texts_push(marks@, mark);
        }
        marks.push(mark);
        i = i + 1;
        proof {
            assert(texts(marks@) =~= Seq::new(i as nat, |i: int| "?"@));
        }
    }
    let front = cat5(
        "DELETE FROM ",
        target.table.as_str(),
        " WHERE ",
        target.id_column.as_str(),
        " IN (",
    );
    cat5(
        front.as_str(),
        join(&marks, ",").as_str(),
        ") AND ",
        target.session_column.as_str(),
        " = ?",
    )
}

/// Adds what came of one database: how many messages went, or that it keeps none that is known.
pub fn add_database(result: &mut MessageDeleteResult, path: &str, deleted: Option<usize>)
    requires
        deleted matches Some(n) ==> old(result).deleted + n <= usize::MAX,
    ensures
        match deleted {
            Some(n) => final(result).deleted == old(result).deleted + n && texts(
                final(result).unsupported_databases@,
            ) == texts(old(result).unsupported_databases@),
            None => final(result).deleted == old(result).deleted && texts(
                final(result).unsupported_databases@,
            ) == texts(old(result).unsupported_databases@).push(path@),
        },
{
    match deleted {
        Some(n) => {
            result.deleted = result.deleted + n;
        },
        None => {
            let text = path.to_owned();
            proof {
                texts_push(result.unsupported_databases@, text);
            }
            result.unsupported_databases.push(text);
        },
    }
}

/// The column is the first of its kind.
pub open spec fn is_first_of(
    columns: Seq<Seq<char>>,
    k: int,
    test: spec_fn(Seq<char>) -> bool,
) -> bool {
    &&& 0 <= k < columns.len()
    &&& test(columns[k])
    &&& forall|j: int| 0 <= j < k ==> !test(#[trigger] columns[j])
}

proof fn lemma_first_column(columns: Seq<Seq<char>>, test: spec_fn(Seq<char>) -> bool, k: int)
    ensures
        is_first_of(columns, k, test) ==> first_column(columns, test) == Some(columns[k]),
        (forall|j: int| 0 <= j < columns.len() ==> !test(#[trigger] columns[j])) ==> first_column(
            columns,
            test,
        ) is None,
    decreases columns.len(),
{
    if columns.len() > 0 {
        let rest = columns.subrange(1, columns.len() as int);
        lemma_first_column(rest, test, k - 1);
        if is_first_of(columns, k, test) && k > 0 {
            assert(!test(columns[0]));
            assert(rest[k - 1] == columns[k]);
            assert forall|j: int| 0 <= j < k - 1 implies !test(#[trigger] rest[j]) by {
                assert(rest[j] == columns[j + 1]);
            }
        }
        if forall|j: int| 0 <= j < columns.len() ==> !test(#[trigger] columns[j]) {
            assert(!test(columns[0]));
            assert forall|j: int| 0 <= j < rest.len() implies !test(#[trigger] rest[j]) by {
                assert(rest[j] == columns[j + 1]);
            }
        }
    }
}

/// A table keeps messages exactly where it has a column for a message and one for its session, and
/// messages are deleted by the first of each.
pub proof fn messages_are_found_by_their_columns(
    table: Seq<char>,
    columns: Seq<Seq<char>>,
    i: int,
    j: int,
)
    requires
        is_first_of(
            columns,
            i,
            |c: Seq<char>| c == "id"@ || c == "message_id"@ || c == "item_id"@,
        ),
        is_first_of(columns, j, |c: Seq<char>| c == "session_id"@ || c == "thread_id"@),
    ensures
        table_target(table, columns) == Some(
            TargetV { table, id_column: columns[i], session_column: columns[j] },
        ),
{
    lemma_first_column(columns, |c: Seq<char>| is_id_column(c), i);
    lemma_first_column(columns, |c: Seq<char>| is_session_column(c), j);
    assert(is_first_of(columns, i, |c: Seq<char>| is_id_column(c))) by {
        let test = |c: Seq<char>| c == "id"@ || c == "message_id"@ || c == "item_id"@;
        assert(test(columns[i]));
        assert forall|k: int| 0 <= k < i implies !is_id_column(#[trigger] columns[k]) by {
            assert(!test(columns[k]));
        }
    }
    assert(is_first_of(columns, j, |c: Seq<char>| is_session_column(c))) by {
        let test = |c: Seq<char>| c == "session_id"@ || c == "thread_id"@;
        assert(test(columns[j]));
        assert forall|k: int| 0 <= k < j implies !is_session_column(#[trigger] columns[k]) by {
            assert(!test(columns[k]));
        }
    }
}

/// A table without such a column is left alone.
pub proof fn other_tables_are_left_alone(table: Seq<char>, columns: Seq<Seq<char>>)
    requires
        (forall|k: int|
            0 <= k < columns.len() ==> #[trigger] columns[k] != "id"@ && columns[k]
                != "message_id"@ && columns[k] != "item_id"@) || (forall|k: int|
            0 <= k < columns.len() ==> #[trigger] columns[k] != "session_id"@ && columns[k]
                != "thread_id"@),
    ensures
        table_target(table, columns) is None,
{
    lemma_first_column(columns, |c: Seq<char>| is_id_column(c), 0);
    lemma_first_column(columns, |c: Seq<char>| is_session_column(c), 0);
}

/// Every table that keeps messages is a target, in its order.
pub proof fn every_message_table_is_a_target(
    first: Seq<(Seq<char>, Seq<Seq<char>>)>,
    table: (Seq<char>, Seq<Seq<char>>),
)
    ensures
        targets(first.push(table)) == match table_target(table.0, table.1) {
            Some(target) => targets(first).push(target),
            None => targets(first),
        },
{
    assert(first.push(table).drop_last() =~= first);
    assert(first.push(table).last() == table);
}

} // verus!
