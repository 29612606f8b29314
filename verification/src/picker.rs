//! The slash-command picker: which entries match what is typed and in what
//! order, how the picker answers each key, and the lines of its frame.
use vstd::prelude::*;

use crate::text::{
    ascii_lower, ascii_lower_chars, chars_of, contains_chars, contains_seq, copy_string, decimal,
    push_chars, push_decimal, push_str_chars, starts_with, starts_with_chars, strip_leading,
    strip_leading_chars, trim, trim_chars, trim_str, push_char,
};

verus! {

/// An entry of the picker.
#[derive(Debug, Clone, PartialEq, Eq)]
pub struct SlashCommandPickerEntry {
    pub command: String,
    pub insert_text: String,
    pub summary: String,
    pub execute_immediately: bool,
}

/// How the picker ends.
#[derive(Debug, Clone, PartialEq, Eq)]
pub enum SlashCommandPickerOutcome {
    /// Run this line at once.
    Submit(String),
    /// Put this text into the line editor to finish.
    Prefill(String),
    /// Nothing chosen.
    Cancel,
}

/// The most entries a frame shows.
pub const SLASH_COMMAND_PICKER_RENDER_LIMIT: usize = 10;

// ---------------------------------------------------------------------------
// Filtering
// ---------------------------------------------------------------------------

/// What a query is matched with: trimmed, without leading `/`, lowercased.
pub open spec fn picker_needle(query: Seq<char>) -> Seq<char> {
    ascii_lower(strip_leading(trim(query), '/'))
}

/// How an entry matches a non-empty needle: 0 when its command (without
/// leading `/`, lowercased) starts with it, 1 when the command contains it,
/// 2 when the lowercased summary contains it, 3 when it does not match.
pub open spec fn match_rank(e: SlashCommandPickerEntry, needle: Seq<char>) -> int {
    let command = ascii_lower(strip_leading(e.command@, '/'));
    let summary = ascii_lower(e.summary@);
    if starts_with(command, needle) {
        0
    } else if contains_seq(command, needle) {
        1
    } else if contains_seq(summary, needle) {
        2
    } else {
        3
    }
}

/// The indices of the entries with a given rank, in order.
pub open spec fn ranked(es: Seq<SlashCommandPickerEntry>, needle: Seq<char>, rank: int) -> Seq<usize>
    decreases es.len(),
{
    if es.len() == 0 {
        Seq::empty()
    } else {
        let r = ranked(es.drop_last(), needle, rank);
        if match_rank(es.last(), needle) == rank {
            r.push((es.len() - 1) as usize)
        } else {
            r
        }
    }
}

/// The entries a query selects, as indices: all of them for an empty
/// needle; else the command-prefix matches, then the command matches, then
/// the summary matches, each group in entry order.
pub open spec fn picker_matches(es: Seq<SlashCommandPickerEntry>, query: Seq<char>) -> Seq<usize> {
    let needle = picker_needle(query);
    if needle.len() == 0 {
        Seq::new(es.len(), |i: int| i as usize)
    } else {
        ranked(es, needle, 0) + ranked(es, needle, 1) + ranked(es, needle, 2)
    }
}

proof fn lemma_ranked_bounds(es: Seq<SlashCommandPickerEntry>, needle: Seq<char>, rank: int)
    ensures
        forall|j: int| 0 <= j < ranked(es, needle, rank).len() ==> #[trigger] ranked(es, needle, rank)[j] < es.len(),
    decreases es.len(),
{
    if es.len() > 0 {
        lemma_ranked_bounds(es.drop_last(), needle, rank);
        let r = ranked(es.drop_last(), needle, rank);
        assert forall|j: int| 0 <= j < ranked(es, needle, rank).len() implies #[trigger] ranked(
            es,
            needle,
            rank,
        )[j] < es.len() by {
            if j < r.len() {
                assert(ranked(es, needle, rank)[j] == r[j]);
            }
        }
    }
}

/// Every index a query selects names an entry.
pub proof fn lemma_picker_matches_in_bounds(es: Seq<SlashCommandPickerEntry>, query: Seq<char>)
    ensures
        forall|j: int| 0 <= j < picker_matches(es, query).len() ==> #[trigger] picker_matches(es, query)[j] < es.len(),
{
    let needle = picker_needle(query);
    if needle.len() > 0 {
        lemma_ranked_bounds(es, needle, 0);
        lemma_ranked_bounds(es, needle, 1);
        lemma_ranked_bounds(es, needle, 2);
        let a = ranked(es, needle, 0);
        let b = ranked(es, needle, 1);
        let c = ranked(es, needle, 2);
        assert forall|j: int| 0 <= j < (a + b + c).len() implies #[trigger] (a + b + c)[j] < es.len() by {
            if j < a.len() {
                assert((a + b + c)[j] == a[j]);
            } else if j < a.len() + b.len() {
                assert((a + b + c)[j] == b[j - a.len()]);
            } else {
                assert((a + b + c)[j] == c[j - a.len() - b.len()]);
            }
        }
    }
}

/// Entries with the same command whose summaries agree once ASCII-lowercased
/// get the same rank for any needle.
proof fn lemma_rank_ignores_summary_case(e1: SlashCommandPickerEntry, e2: SlashCommandPickerEntry, needle: Seq<char>)
    requires
        e1.command@ == e2.command@,
        ascii_lower(e1.summary@) == ascii_lower(e2.summary@),
    ensures
        match_rank(e1, needle) == match_rank(e2, needle),
{
}

proof fn lemma_ranked_ignores_summary_case(
    es1: Seq<SlashCommandPickerEntry>,
    es2: Seq<SlashCommandPickerEntry>,
    needle: Seq<char>,
    rank: int,
)
    requires
        es1.len() == es2.len(),
        forall|i: int| 0 <= i < es1.len() ==> (#[trigger] es1[i]).command@ == es2[i].command@,
        forall|i: int| 0 <= i < es1.len() ==> ascii_lower((#[trigger] es1[i]).summary@) == ascii_lower(es2[i].summary@),
    ensures
        ranked(es1, needle, rank) == ranked(es2, needle, rank),
    decreases es1.len(),
{
    if es1.len() > 0 {
        let n = es1.len() - 1;
        assert forall|i: int| 0 <= i < es1.drop_last().len() implies (#[trigger] es1.drop_last()[i]).command@
            == es2.drop_last()[i].command@ && ascii_lower(es1.drop_last()[i].summary@) == ascii_lower(
            es2.drop_last()[i].summary@,
        ) by {
            assert(es1.drop_last()[i] == es1[i]);
            assert(es2.drop_last()[i] == es2[i]);
        }
        lemma_ranked_ignores_summary_case(es1.drop_last(), es2.drop_last(), needle, rank);
        assert(es1.last() == es1[n]);
        assert(es2.last() == es2[n]);
        lemma_rank_ignores_summary_case(es1.last(), es2.last(), needle);
    }
}

/// Summaries are matched without regard to ASCII case: two entry lists that
/// differ only in the case of their summaries select the same entries, in
/// the same order, for every query. So `Inspect` in a summary matches the
/// query `inspect`, as `inspect` does.
pub proof fn lemma_matches_ignore_summary_case(
    es1: Seq<SlashCommandPickerEntry>,
    es2: Seq<SlashCommandPickerEntry>,
    query: Seq<char>,
)
    requires
        es1.len() == es2.len(),
        forall|i: int| 0 <= i < es1.len() ==> (#[trigger] es1[i]).command@ == es2[i].command@,
        forall|i: int| 0 <= i < es1.len() ==> ascii_lower((#[trigger] es1[i]).summary@) == ascii_lower(es2[i].summary@),
    ensures
        picker_matches(es1, query) == picker_matches(es2, query),
{
    let needle = picker_needle(query);
    lemma_ranked_ignores_summary_case(es1, es2, needle, 0);
    lemma_ranked_ignores_summary_case(es1, es2, needle, 1);
    lemma_ranked_ignores_summary_case(es1, es2, needle, 2);
    assert(Seq::new(es1.len(), |i: int| i as usize) =~= Seq::new(es2.len(), |i: int| i as usize));
}

/// The ASCII-lowercased form of a text, lowercased again, is unchanged.
proof fn lemma_ascii_lower_idempotent(s: Seq<char>)
    ensures
        ascii_lower(ascii_lower(s)) == ascii_lower(s),
{
    assert(ascii_lower(ascii_lower(s)) =~= ascii_lower(s));
}

/// A summary's ASCII-lowercased form matches exactly as the summary does:
/// an entry whose command does not contain a needle is a summary match for
/// it exactly when its lowercased summary contains the needle, whatever the
/// case the summary is written in.
pub proof fn lemma_summary_match_is_case_blind(e: SlashCommandPickerEntry, lowered: SlashCommandPickerEntry, needle: Seq<char>)
    requires
        lowered.command@ == e.command@,
        lowered.summary@ == ascii_lower(e.summary@),
    ensures
        match_rank(e, needle) == match_rank(lowered, needle),
{
    lemma_ascii_lower_idempotent(e.summary@);
}

fn match_rank_exec(e: &SlashCommandPickerEntry, needle: &Vec<char>) -> (r: u8)
    ensures
        r as int == match_rank(*e, needle@),
{
    let cc = chars_of(e.command.as_str());
    let stripped = strip_leading_chars(cc.as_slice(), '/');
    let command = ascii_lower_chars(stripped.as_slice());
    let sc = chars_of(e.summary.as_str());
    let summary = ascii_lower_chars(sc.as_slice());
    if starts_with_chars(command.as_slice(), needle.as_slice()) {
        0
    } else if contains_chars(command.as_slice(), needle.as_slice()) {
        1
    } else if contains_chars(summary.as_slice(), needle.as_slice()) {
        2
    } else {
        3
    }
}

fn append_indices(out: &mut Vec<usize>, more: &Vec<usize>)
    ensures
        final(out)@ == old(out)@ + more@,
{
    let mut i: usize = 0;
    while i < more.len()
        invariant
            i <= more@.len(),
            out@ == old(out)@ + more@.take(i as int),
        decreases more@.len() - i,
    {
        out.push(more[i]);
        i = i + 1;
        assert(out@ =~= old(out)@ + more@.take(i as int));
    }
    assert(more@.take(more@.len() as int) =~= more@);
}

/// The entries a query selects, as indices, in the order they are listed.
pub fn filter_slash_command_picker_entries(entries: &[SlashCommandPickerEntry], query: &str) -> (r: Vec<usize>)
    ensures
        r@ == picker_matches(entries@, query@),
        forall|j: int| 0 <= j < r@.len() ==> #[trigger] r@[j] < entries@.len(),
{
    proof {
        lemma_picker_matches_in_bounds(entries@, query@);
    }
    let t = trim_str(query);
    let s = strip_leading_chars(t.as_slice(), '/');
    let needle = ascii_lower_chars(s.as_slice());
    let n = entries.len();
    if needle.len() == 0 {
        let mut all: Vec<usize> = Vec::new();
        let mut i: usize = 0;
        while i < n
            invariant
                n == entries@.len(),
                i <= n,
                all@ == Seq::new(i as nat, |j: int| j as usize),
            decreases n - i,
        {
            all.push(i);
            i = i + 1;
            assert(all@ =~= Seq::new(i as nat, |j: int| j as usize));
        }
        return all;
    }
    let ghost es = entries@;
    let mut prefix_matches: Vec<usize> = Vec::new();
    let mut contains_matches: Vec<usize> = Vec::new();
    let mut summary_matches: Vec<usize> = Vec::new();
    let mut i: usize = 0;
    while i < n
        invariant
            n == es.len(),
            es == entries@,
            needle@ == picker_needle(query@),
            i <= n,
            prefix_matches@ == ranked(es.take(i as int), needle@, 0),
            contains_matches@ == ranked(es.take(i as int), needle@, 1),
            summary_matches@ == ranked(es.take(i as int), needle@, 2),
        decreases n - i,
    {
        let rank = match_rank_exec(&entries[i], &needle);
        let ghost t = es.take(i + 1);
        assert(t.drop_last() =~= es.take(i as int));
        assert(t.last() == es[i as int]);
        if rank == 0 {
            prefix_matches.push(i);
        } else if rank == 1 {
            contains_matches.push(i);
        } else if rank == 2 {
            summary_matches.push(i);
        }
        i = i + 1;
    }
    assert(es.take(n as int) =~= es);
    append_indices(&mut prefix_matches, &contains_matches);
    append_indices(&mut prefix_matches, &summary_matches);
    assert(prefix_matches@ == picker_matches(entries@, query@));
    proof {
        lemma_picker_matches_in_bounds(entries@, query@);
    }
    prefix_matches
}

// ---------------------------------------------------------------------------
// The picker's state machine
// ---------------------------------------------------------------------------

/// A key as the picker tells keys apart.
#[derive(Debug, Clone, Copy, PartialEq, Eq)]
pub enum PickerKey {
    Esc,
    Up,
    Down,
    Backspace,
    Enter,
    Tab,
    /// A character, with whether Control and Alt were held.
    Char { ch: char, control: bool, alt: bool },
    /// Any other key.
    Other,
}

/// The selection after Up: the previous entry, from the first to the last.
pub open spec fn picker_up(selected: nat, n: nat) -> nat {
    if n == 0 {
        selected
    } else if selected == 0 {
        (n - 1) as nat
    } else {
        (selected - 1) as nat
    }
}

/// The selection after Down: the next entry, from the last to the first.
pub open spec fn picker_down(selected: nat, n: nat) -> nat {
    if n == 0 {
        selected
    } else {
        (selected + 1) % n
    }
}

/// The selection kept when a frame shows `n` entries.
pub open spec fn clamp_selection(selected: nat, n: nat) -> nat {
    if n == 0 {
        0
    } else if selected < n {
        selected
    } else {
        (n - 1) as nat
    }
}

/// What the picker answers to a key, with query `q`, selection `sel` and
/// the matches `filtered`: Esc and Ctrl-C cancel; Enter runs or inserts the
/// selected entry, else cancels on a blank query or inserts the typed
/// command; every other key answers nothing yet.
pub open spec fn key_answer(
    es: Seq<SlashCommandPickerEntry>,
    filtered: Seq<usize>,
    q: Seq<char>,
    sel: nat,
    key: PickerKey,
    r: Option<SlashCommandPickerOutcome>,
) -> bool {
    match key {
        PickerKey::Esc => r == Some(SlashCommandPickerOutcome::Cancel),
        PickerKey::Enter => if sel < filtered.len() {
            let e = es[filtered[sel as int] as int];
            if e.execute_immediately {
                r matches Some(SlashCommandPickerOutcome::Submit(s)) && s@ == e.insert_text@
            } else {
                r matches Some(SlashCommandPickerOutcome::Prefill(s)) && s@ == e.insert_text@
            }
        } else if trim(q).len() == 0 {
            r == Some(SlashCommandPickerOutcome::Cancel)
        } else {
            r matches Some(SlashCommandPickerOutcome::Prefill(s)) && s@ == seq!['/'] + trim(q)
        },
        PickerKey::Char { ch, control, alt } => if control && ch == 'c' {
            r == Some(SlashCommandPickerOutcome::Cancel)
        } else {
            r is None
        },
        _ => r is None,
    }
}

/// The query after a key: Backspace drops the last character, Tab takes the
/// selected entry's command (without `/`), a plain character other than `/`
/// is appended; other keys leave it.
pub open spec fn next_query(
    es: Seq<SlashCommandPickerEntry>,
    filtered: Seq<usize>,
    q: Seq<char>,
    sel: nat,
    key: PickerKey,
) -> Seq<char> {
    match key {
        PickerKey::Backspace => if q.len() > 0 {
            q.drop_last()
        } else {
            q
        },
        PickerKey::Tab => if sel < filtered.len() {
            strip_leading(es[filtered[sel as int] as int].command@, '/')
        } else {
            q
        },
        PickerKey::Char { ch, control, alt } => if !control && !alt && ch != '/' {
            q.push(ch)
        } else {
            q
        },
        _ => q,
    }
}

/// The selection after a key among `n` matches: Up and Down move it round
/// the matches; editing the query, or Tab on a match, resets it.
pub open spec fn next_selected(n: nat, sel: nat, key: PickerKey) -> nat {
    match key {
        PickerKey::Up => picker_up(sel, n),
        PickerKey::Down => picker_down(sel, n),
        PickerKey::Backspace => 0,
        PickerKey::Tab => if sel < n {
            0
        } else {
            sel
        },
        PickerKey::Char { ch, control, alt } => if !control && !alt && ch != '/' {
            0
        } else {
            sel
        },
        _ => sel,
    }
}

/// The query and selection after one round of the picker: the frame clamps
/// the selection to the query's matches, then the key is handled.
pub open spec fn picker_step(
    es: Seq<SlashCommandPickerEntry>,
    state: (Seq<char>, nat),
    key: PickerKey,
) -> (Seq<char>, nat) {
    let filtered = picker_matches(es, state.0);
    let sel = clamp_selection(state.1, filtered.len());
    (next_query(es, filtered, state.0, sel, key), next_selected(filtered.len(), sel, key))
}

/// The query and selection after a run of keys.
pub open spec fn picker_run(
    es: Seq<SlashCommandPickerEntry>,
    state: (Seq<char>, nat),
    keys: Seq<PickerKey>,
) -> (Seq<char>, nat)
    decreases keys.len(),
{
    if keys.len() == 0 {
        state
    } else {
        picker_step(es, picker_run(es, state, keys.drop_last()), keys.last())
    }
}

/// The key that types a character, with neither Control nor Alt held.
pub open spec fn plain_key(ch: char) -> PickerKey {
    PickerKey::Char { ch, control: false, alt: false }
}

/// The keys that type a text: one plain character key each.
pub open spec fn typed_keys(text: Seq<char>) -> Seq<PickerKey> {
    text.map_values(|c: char| plain_key(c))
}

/// The state of an open picker: what has been typed and which shown entry
/// is selected.
#[derive(Debug, Clone)]
pub struct SlashCommandPicker {
    query: Vec<char>,
    selected_index: usize,
}

/// Whether a picker opens at all: with no entries the editor is prefilled
/// with `/` at once.
pub fn picker_shortcut(entries: &[SlashCommandPickerEntry]) -> (r: Option<SlashCommandPickerOutcome>)
    ensures
        entries@.len() == 0 ==> (r matches Some(SlashCommandPickerOutcome::Prefill(s)) && s@ == "/"@),
        entries@.len() > 0 ==> r is None,
{
    if entries.len() == 0 {
        Some(SlashCommandPickerOutcome::Prefill(String::from_str("/")))
    } else {
        None
    }
}

impl SlashCommandPicker {
    /// What has been typed.
    pub closed spec fn query_view(&self) -> Seq<char> {
        self.query@
    }

    /// The selected position among the shown entries.
    pub closed spec fn selected_view(&self) -> nat {
        self.selected_index as nat
    }

    /// A picker with nothing typed and the first entry selected.
    pub fn new() -> (p: Self)
        ensures
            p.query_view().len() == 0,
            p.selected_view() == 0,
    {
        SlashCommandPicker { query: Vec::new(), selected_index: 0 }
    }

    /// What has been typed.
    pub fn query(&self) -> (r: String)
        ensures
            r@ == self.query_view(),
    {
        crate::text::string_from_chars(self.query.as_slice())
    }

    /// The selected position among the shown entries.
    pub fn selected_index(&self) -> (r: usize)
        ensures
            r == self.selected_view(),
    {
        self.selected_index
    }

    /// Starts a frame: the entries the query selects, with the selection
    /// kept within them.
    pub fn frame(&mut self, entries: &[SlashCommandPickerEntry]) -> (r: Vec<usize>)
        ensures
            r@ == picker_matches(entries@, old(self).query_view()),
            forall|j: int| 0 <= j < r@.len() ==> #[trigger] r@[j] < entries@.len(),
            final(self).query_view() == old(self).query_view(),
            final(self).selected_view() == clamp_selection(old(self).selected_view(), r@.len()),
    {
        let q = crate::text::string_from_chars(self.query.as_slice());
        let filtered = filter_slash_command_picker_entries(entries, q.as_str());
        if filtered.len() == 0 {
            self.selected_index = 0;
        } else if self.selected_index >= filtered.len() {
            self.selected_index = filtered.len() - 1;
        }
        filtered
    }

    /// Answers a key while `filtered` (the frame's entries) is shown: either
    /// the picker ends with an outcome, or its state changes.
    pub fn handle_key(&mut self, entries: &[SlashCommandPickerEntry], filtered: &[usize], key: PickerKey) -> (r: Option<SlashCommandPickerOutcome>)
        requires
            forall|j: int| 0 <= j < filtered@.len() ==> #[trigger] filtered@[j] < entries@.len(),
        ensures
            key_answer(entries@, filtered@, old(self).query_view(), old(self).selected_view(), key, r),
            final(self).query_view() == next_query(
                entries@,
                filtered@,
                old(self).query_view(),
                old(self).selected_view(),
                key,
            ),
            final(self).selected_view() == next_selected(filtered@.len(), old(self).selected_view(), key),
    {
        let n = filtered.len();
        match key {
            PickerKey::Esc => Some(SlashCommandPickerOutcome::Cancel),
            PickerKey::Up => {
                if n > 0 {
                    self.selected_index = if self.selected_index == 0 {
                        n - 1
                    } else {
                        self.selected_index - 1
                    };
                }
                None
            },
            PickerKey::Down => {
                if n > 0 {
                    self.selected_index = if self.selected_index < n {
                        (self.selected_index + 1) % n
                    } else {
                        ((self.selected_index % n) + 1) % n
                    };
                    proof {
                        let a = old(self).selected_index as int;
                        let m = n as int;
                        vstd::arithmetic::div_mod::lemma_add_mod_noop(a, 1, m);
                        vstd::arithmetic::div_mod::lemma_mod_twice(a, m);
                        if m > 1 {
                            vstd::arithmetic::div_mod::lemma_small_mod(1, m as nat);
                        }
                    }
                }
                None
            },
            PickerKey::Backspace => {
                self.query.pop();
                self.selected_index = 0;
                None
            },
            PickerKey::Enter => {
                if self.selected_index < n {
                    let entry = &entries[filtered[self.selected_index]];
                    if entry.execute_immediately {
                        return Some(SlashCommandPickerOutcome::Submit(copy_string(&entry.insert_text)));
                    }
                    return Some(SlashCommandPickerOutcome::Prefill(copy_string(&entry.insert_text)));
                }
                let t = trim_chars(self.query.as_slice());
                if t.len() == 0 {
                    return Some(SlashCommandPickerOutcome::Cancel);
                }
                let mut line = String::new();
                push_char(&mut line, '/');
                push_chars(&mut line, t.as_slice());
                assert(line@ =~= seq!['/'] + trim(self.query@));
                Some(SlashCommandPickerOutcome::Prefill(line))
            },
            PickerKey::Tab => {
                if self.selected_index < n {
                    let entry = &entries[filtered[self.selected_index]];
                    let cc = chars_of(entry.command.as_str());
                    self.query = strip_leading_chars(cc.as_slice(), '/');
                    self.selected_index = 0;
                }
                None
            },
            PickerKey::Char { ch, control, alt } => {
                if control && ch == 'c' {
                    return Some(SlashCommandPickerOutcome::Cancel);
                }
                if !control && !alt && ch != '/' {
                    self.query.push(ch);
                    self.selected_index = 0;
                }
                None
            },
            PickerKey::Other => None,
        }
    }
}

/// Up and Down undo each other, and keep a selection among `n` entries.
pub proof fn lemma_up_down_inverse(selected: nat, n: nat)
    requires
        selected < n,
    ensures
        picker_down(picker_up(selected, n), n) == selected,
        picker_up(picker_down(selected, n), n) == selected,
        picker_up(selected, n) < n,
        picker_down(selected, n) < n,
{
    vstd::arithmetic::div_mod::lemma_mod_self_0(n as int);
    vstd::arithmetic::div_mod::lemma_small_mod(selected, n);
    if selected + 1 < n {
        vstd::arithmetic::div_mod::lemma_small_mod((selected + 1) as nat, n);
    }
    vstd::arithmetic::div_mod::lemma_mod_bound((selected + 1) as int, n as int);
}

/// Typing a text (without `/`) into a new picker leaves that text as the
/// query with the first match selected.
proof fn lemma_typing_sets_query(es: Seq<SlashCommandPickerEntry>, q: Seq<char>)
    requires
        forall|i: int| 0 <= i < q.len() ==> q[i] != '/',
    ensures
        picker_run(es, (Seq::<char>::empty(), 0nat), typed_keys(q)) == (q, 0nat),
    decreases q.len(),
{
    if q.len() == 0 {
        assert(typed_keys(q).len() == 0);
        assert(q =~= Seq::<char>::empty());
    } else {
        let init = q.drop_last();
        assert forall|i: int| 0 <= i < init.len() implies init[i] != '/' by {
            assert(init[i] == q[i]);
        }
        lemma_typing_sets_query(es, init);
        assert(typed_keys(q).drop_last() =~= typed_keys(init));
        assert(typed_keys(q).last() == plain_key(q.last()));
        assert(init.push(q.last()) =~= q);
    }
}

/// Typing a query (without `/`) into a new picker over some entries and then
/// pressing Enter answers for the query's first match: that entry is run at
/// once or inserted for editing; with no match, the typed command is
/// inserted.
pub proof fn lemma_typed_query_then_enter(
    es: Seq<SlashCommandPickerEntry>,
    q: Seq<char>,
    r: Option<SlashCommandPickerOutcome>,
)
    requires
        es.len() > 0,
        forall|i: int| 0 <= i < q.len() ==> q[i] != '/',
        ({
            let state = picker_run(es, (Seq::<char>::empty(), 0nat), typed_keys(q));
            let filtered = picker_matches(es, state.0);
            key_answer(es, filtered, state.0, clamp_selection(state.1, filtered.len()), PickerKey::Enter, r)
        }),
    ensures
        picker_run(es, (Seq::<char>::empty(), 0nat), typed_keys(q)) == (q, 0nat),
        picker_matches(es, q).len() > 0 ==> ({
            let e = es[picker_matches(es, q)[0] as int];
            if e.execute_immediately {
                r matches Some(SlashCommandPickerOutcome::Submit(s)) && s@ == e.insert_text@
            } else {
                r matches Some(SlashCommandPickerOutcome::Prefill(s)) && s@ == e.insert_text@
            }
        }),
        picker_matches(es, q).len() == 0 ==> (r matches Some(SlashCommandPickerOutcome::Prefill(s)) && s@
            == seq!['/'] + trim(q)),
{
    lemma_typing_sets_query(es, q);
    if trim(q).len() == 0 {
        assert(trim(q) =~= Seq::<char>::empty());
        assert(strip_leading(trim(q), '/') =~= Seq::<char>::empty());
        assert(picker_needle(q).len() == 0);
        assert(picker_matches(es, q).len() == es.len());
    }
}

/// A frame's selection lies within its entries, when there are any.
pub proof fn lemma_clamp_in_range(selected: nat, n: nat)
    ensures
        n > 0 ==> clamp_selection(selected, n) < n,
        n == 0 ==> clamp_selection(selected, n) == 0,
        selected < n ==> clamp_selection(selected, n) == selected,
{
}

// ---------------------------------------------------------------------------
// The frame
// ---------------------------------------------------------------------------

/// The first shown position: up to half the limit before the selection,
/// moved back so that the window is full when there are enough entries.
pub open spec fn window_end(selected: nat, total: nat) -> nat {
    let start = if selected >= 5 {
        (selected - 5) as nat
    } else {
        0
    };
    if start + 10 < total {
        (start + 10) as nat
    } else {
        total
    }
}

/// The first shown position.
pub open spec fn window_start(selected: nat, total: nat) -> nat {
    let end = window_end(selected, total);
    if end >= 10 {
        (end - 10) as nat
    } else {
        0
    }
}

/// The window shows the selection and at most the limit of entries.
pub proof fn lemma_window_shows_selection(selected: nat, total: nat)
    requires
        selected < total,
    ensures
        window_start(selected, total) <= selected < window_end(selected, total),
        window_end(selected, total) <= total,
        window_end(selected, total) - window_start(selected, total) <= 10,
{
}

/// `s` padded with spaces to at least `width` characters.
pub open spec fn pad_right(s: Seq<char>, width: nat) -> Seq<char> {
    if s.len() >= width {
        s
    } else {
        s + Seq::new((width - s.len()) as nat, |i: int| ' ')
    }
}

/// The line of a shown entry: a marker (`>` for the selection), the command
/// padded to 18 characters, and the summary.
pub open spec fn entry_line(e: SlashCommandPickerEntry, selected: bool) -> Seq<char> {
    seq![' ', if selected {
        '>'
    } else {
        ' '
    }, ' '] + pad_right(e.command@, 18) + seq![' '] + e.summary@
}

/// The header lines of a frame.
pub open spec fn frame_header(query: Seq<char>) -> Seq<Seq<char>> {
    seq![
        "Slash command picker"@,
        "  Filter          /"@ + query,
        "  Controls        type to filter, Up/Down to choose, Enter to run or insert, Esc to cancel"@,
        "  Tip             commands that need arguments are inserted so you can finish editing them"@,
        Seq::empty(),
    ]
}

/// The lines of the shown entries, from `start` to `end`.
pub open spec fn window_lines(
    es: Seq<SlashCommandPickerEntry>,
    filtered: Seq<usize>,
    selected: nat,
    start: nat,
    end: nat,
) -> Seq<Seq<char>> {
    Seq::new(
        (end - start) as nat,
        |i: int| entry_line(es[filtered[start + i] as int], start + i == selected),
    )
}

/// The lines of a frame.
pub open spec fn frame_lines(
    es: Seq<SlashCommandPickerEntry>,
    query: Seq<char>,
    filtered: Seq<usize>,
    selected: nat,
) -> Seq<Seq<char>> {
    let total = filtered.len();
    if total == 0 {
        frame_header(query).push(
            "  No matches      press Backspace to broaden the filter, or Enter to keep the typed command"@,
        )
    } else {
        let start = window_start(selected, total);
        let end = window_end(selected, total);
        let more: Seq<Seq<char>> = if total > end {
            seq!["  ... "@ + decimal((total - end) as nat) + " more matches"@]
        } else {
            Seq::empty()
        };
        frame_header(query) + window_lines(es, filtered, selected, start, end) + more
    }
}

fn padded(s: &String, width: usize) -> (r: Vec<char>)
    ensures
        r@ == pad_right(s@, width as nat),
{
    let mut v = chars_of(s.as_str());
    if v.len() >= width {
        return v;
    }
    let ghost base = v@;
    let missing = width - v.len();
    let mut i: usize = 0;
    while i < missing
        invariant
            i <= missing,
            missing == width - base.len(),
            v@ == base + Seq::new(i as nat, |k: int| ' '),
        decreases missing - i,
    {
        v.push(' ');
        i = i + 1;
        assert(v@ =~= base + Seq::new(i as nat, |k: int| ' '));
    }
    v
}

fn entry_line_exec(e: &SlashCommandPickerEntry, selected: bool) -> (r: String)
    ensures
        r@ == entry_line(*e, selected),
{
    let mut line = String::new();
    push_char(&mut line, ' ');
    push_char(&mut line, if selected {
        '>'
    } else {
        ' '
    });
    push_char(&mut line, ' ');
    let p = padded(&e.command, 18);
    push_chars(&mut line, p.as_slice());
    push_char(&mut line, ' ');
    push_str_chars(&mut line, e.summary.as_str());
    assert(line@ =~= entry_line(*e, selected));
    line
}

/// The lines of the picker's frame for the entries `filtered` selects.
pub fn picker_frame_lines(
    entries: &[SlashCommandPickerEntry],
    query: &str,
    filtered: &[usize],
    selected_index: usize,
) -> (r: Vec<String>)
    requires
        forall|j: int| 0 <= j < filtered@.len() ==> #[trigger] filtered@[j] < entries@.len(),
    ensures
        r@.map_values(|s: String| s@) == frame_lines(entries@, query@, filtered@, selected_index as nat),
{
    let mut lines: Vec<String> = Vec::new();
    lines.push(String::from_str("Slash command picker"));
    let mut filter_line = String::from_str("  Filter          /");
    push_str_chars(&mut filter_line, query);
    lines.push(filter_line);
    lines.push(
        String::from_str(
            "  Controls        type to filter, Up/Down to choose, Enter to run or insert, Esc to cancel",
        ),
    );
    lines.push(
        String::from_str(
            "  Tip             commands that need arguments are inserted so you can finish editing them",
        ),
    );
    lines.push(String::new());
    let ghost header = lines@.map_values(|s: String| s@);
    assert(header =~= frame_header(query@));
    let total = filtered.len();
    if total == 0 {
        lines.push(
            String::from_str(
                "  No matches      press Backspace to broaden the filter, or Enter to keep the typed command",
            ),
        );
        assert(lines@.map_values(|s: String| s@) =~= frame_lines(
            entries@,
            query@,
            filtered@,
            selected_index as nat,
        ));
        return lines;
    }
    let start0 = if selected_index >= 5 {
        selected_index - 5
    } else {
        0
    };
    let end = if start0 < total && total - start0 > 10 {
        start0 + 10
    } else {
        total
    };
    let start = if end >= 10 {
        end - 10
    } else {
        0
    };
    assert(end == window_end(selected_index as nat, total as nat));
    assert(start == window_start(selected_index as nat, total as nat));
    let ghost shown = window_lines(entries@, filtered@, selected_index as nat, start as nat, end as nat);
    let mut i: usize = start;
    while i < end
        invariant
            start <= i <= end,
            end <= total,
            total == filtered@.len(),
            forall|j: int| 0 <= j < filtered@.len() ==> #[trigger] filtered@[j] < entries@.len(),
            shown == window_lines(entries@, filtered@, selected_index as nat, start as nat, end as nat),
            lines@.map_values(|s: String| s@) == header + shown.take(i - start),
        decreases end - i,
    {
        let line = entry_line_exec(&entries[filtered[i]], i == selected_index);
        let ghost before = lines@.map_values(|s: String| s@);
        let ghost lv = line@;
        lines.push(line);
        assert(lines@.map_values(|s: String| s@) =~= before.push(lv));
        assert(shown[i - start] == entry_line(entries@[filtered@[i as int] as int], i == selected_index));
        assert(shown.take(i + 1 - start) =~= shown.take(i - start).push(shown[i - start]));
        assert(lines@.map_values(|s: String| s@) =~= header + shown.take(i + 1 - start));
        i = i + 1;
    }
    assert(shown.take(end - start) =~= shown);
    if total > end {
        let mut more = String::from_str("  ... ");
        push_decimal(&mut more, (total - end) as u64);
        push_str_chars(&mut more, " more matches");
        lines.push(more);
    }
    assert(lines@.map_values(|s: String| s@) =~= frame_lines(
        entries@,
        query@,
        filtered@,
        selected_index as nat,
    ));
    lines
}

} // verus!
