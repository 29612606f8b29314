//! Slash-command completion for the line editor: the candidate list (slash
//! commands only, each once), the buffer the editor last showed, and the
//! candidates offered for a line.
use vstd::prelude::*;

use crate::text::{chars_eq, chars_of, copy_string, starts_with, starts_with_chars, views};

verus! {

/// Whether a candidate is a slash command.
pub open spec fn is_slash_command(c: Seq<char>) -> bool {
    c.len() > 0 && c[0] == '/'
}

/// The candidates kept from a list: slash commands only, each the first time
/// it occurs.
pub open spec fn normalize(cs: Seq<Seq<char>>) -> Seq<Seq<char>>
    decreases cs.len(),
{
    if cs.len() == 0 {
        Seq::empty()
    } else {
        let r = normalize(cs.drop_last());
        if is_slash_command(cs.last()) && !r.contains(cs.last()) {
            r.push(cs.last())
        } else {
            r
        }
    }
}

/// Whether no element occurs twice.
pub open spec fn no_duplicates(cs: Seq<Seq<char>>) -> bool {
    forall|i: int, j: int| 0 <= i < j < cs.len() ==> #[trigger] cs[i] != #[trigger] cs[j]
}

/// The kept candidates are slash commands, occur once each, are taken from
/// the list, and include every slash command of the list.
pub proof fn lemma_normalize(cs: Seq<Seq<char>>)
    ensures
        no_duplicates(normalize(cs)),
        forall|i: int| 0 <= i < normalize(cs).len() ==> is_slash_command(#[trigger] normalize(cs)[i]),
        forall|i: int| 0 <= i < normalize(cs).len() ==> cs.contains(#[trigger] normalize(cs)[i]),
        forall|i: int| 0 <= i < cs.len() && is_slash_command(#[trigger] cs[i]) ==> normalize(cs).contains(cs[i]),
    decreases cs.len(),
{
    if cs.len() > 0 {
        let init = cs.drop_last();
        lemma_normalize(init);
        let r = normalize(init);
        let n = normalize(cs);
        assert forall|i: int| 0 <= i < n.len() implies cs.contains(#[trigger] n[i]) by {
            if i < r.len() {
                assert(n[i] == r[i]);
                let j = choose|j: int| 0 <= j < init.len() && init[j] == r[i];
                assert(cs[j] == init[j]);
            } else {
                assert(cs[cs.len() - 1] == cs.last());
            }
        }
        assert forall|i: int| 0 <= i < cs.len() && is_slash_command(#[trigger] cs[i]) implies n.contains(cs[i]) by {
            if i < cs.len() - 1 {
                assert(init[i] == cs[i]);
                let j = choose|j: int| 0 <= j < r.len() && r[j] == cs[i];
                assert(n[j] == r[j]);
            } else {
                if r.contains(cs.last()) {
                    let j = choose|j: int| 0 <= j < r.len() && r[j] == cs.last();
                    assert(n[j] == r[j]);
                } else {
                    assert(n[n.len() - 1] == cs.last());
                }
            }
        }
        assert forall|i: int| 0 <= i < n.len() implies is_slash_command(#[trigger] n[i]) by {
            if i < r.len() {
                assert(n[i] == r[i]);
            }
        }
        assert forall|i: int, j: int| 0 <= i < j < n.len() implies #[trigger] n[i] != #[trigger] n[j] by {
            if j < r.len() {
                assert(n[i] == r[i] && n[j] == r[j]);
            } else {
                assert(n[i] == r[i]);
            }
        }
    }
}

/// Every candidate whose first character is `/` is kept, the one-character
/// command `/` among them, and everything kept starts with `/`.
pub proof fn lemma_normalize_keeps_slash_commands(cs: Seq<Seq<char>>)
    ensures
        forall|i: int| 0 <= i < cs.len() && #[trigger] cs[i].len() > 0 && cs[i][0] == '/' ==> normalize(cs).contains(cs[i]),
        forall|i: int| 0 <= i < normalize(cs).len() ==> #[trigger] normalize(cs)[i].len() > 0 && normalize(cs)[i][0] == '/',
{
    lemma_normalize(cs);
}

fn contains_string(v: &Vec<String>, s: &String) -> (r: bool)
    ensures
        r == views(v@).contains(s@),
{
    let sc = chars_of(s.as_str());
    let mut i: usize = 0;
    while i < v.len()
        invariant
            sc@ == s@,
            i <= v@.len(),
            forall|j: int| 0 <= j < i ==> v@[j]@ != s@,
        decreases v@.len() - i,
    {
        let vc = chars_of(v[i].as_str());
        if chars_eq(vc.as_slice(), sc.as_slice()) {
            assert(views(v@)[i as int] == s@);
            return true;
        }
        i = i + 1;
    }
    assert forall|j: int| 0 <= j < views(v@).len() implies views(v@)[j] != s@ by {
        assert(views(v@)[j] == v@[j]@);
    }
    false
}

fn is_slash_command_exec(s: &str) -> (r: bool)
    ensures
        r == is_slash_command(s@),
{
    let c = chars_of(s);
    c.len() > 0 && c[0] == '/'
}

/// Keeps the slash commands of a candidate list, each once, in the order of
/// their first occurrence.
pub fn normalize_completions(completions: Vec<String>) -> (r: Vec<String>)
    ensures
        views(r@) == normalize(views(completions@)),
{
    let ghost cs = views(completions@);
    let mut out: Vec<String> = Vec::new();
    let mut i: usize = 0;
    while i < completions.len()
        invariant
            cs == views(completions@),
            i <= completions@.len(),
            views(out@) == normalize(cs.take(i as int)),
        decreases completions@.len() - i,
    {
        let c = &completions[i];
        let ghost t = cs.take(i + 1);
        assert(t.drop_last() =~= cs.take(i as int));
        assert(t.last() == c@);
        if is_slash_command_exec(c.as_str()) && !contains_string(&out, c) {
            let ghost before = views(out@);
            out.push(copy_string(c));
            assert(views(out@) =~= before.push(c@));
        }
        i = i + 1;
    }
    assert(cs.take(completions@.len() as int) =~= cs);
    out
}

/// Whether a candidate is offered for a typed prefix: it starts with the
/// prefix, and a `/model <name>` candidate only once the prefix has reached
/// `/model `.
pub open spec fn offered(prefix: Seq<char>, c: Seq<char>) -> bool {
    (!starts_with(c, "/model "@) || starts_with(prefix, "/model "@)) && starts_with(c, prefix)
}

/// Whether a command takes arguments: some candidate extends it with a space
/// and more text (`/model` beside `/model opus`).
pub open spec fn takes_arguments(cs: Seq<Seq<char>>, c: Seq<char>) -> bool {
    exists|i: int| 0 <= i < cs.len() && starts_with(#[trigger] cs[i], c.push(' '))
}

/// Whether a candidate is listed after the others: the `/model` command when
/// `/model <name>` candidates exist, which are held back until `/model ` is
/// typed.
pub open spec fn deferred(cs: Seq<Seq<char>>, c: Seq<char>) -> bool {
    c == "/model"@ && takes_arguments(cs, c)
}

/// The candidates of `cs` offered for a typed prefix whose being deferred
/// (among all candidates `all`) is `later`, in list order.
pub open spec fn offered_group(
    cs: Seq<Seq<char>>,
    all: Seq<Seq<char>>,
    prefix: Seq<char>,
    later: bool,
) -> Seq<Seq<char>>
    decreases cs.len(),
{
    if cs.len() == 0 {
        Seq::empty()
    } else {
        let r = offered_group(cs.drop_last(), all, prefix, later);
        if offered(prefix, cs.last()) && deferred(all, cs.last()) == later {
            r.push(cs.last())
        } else {
            r
        }
    }
}

/// The candidates offered for a typed prefix, in list order, except that a
/// `/model` whose variants are held back comes after the others.
pub open spec fn offered_candidates(cs: Seq<Seq<char>>, prefix: Seq<char>) -> Seq<Seq<char>> {
    offered_group(cs, cs, prefix, false) + offered_group(cs, cs, prefix, true)
}

/// The slash-command prefix being completed: the whole line, when the cursor
/// is at its end and it starts with `/`.
pub fn slash_command_prefix(line: &str, pos: usize) -> (r: Option<&str>)
    ensures
        r == (if pos == line.len() && is_slash_command(line@) {
            Some(line)
        } else {
            None::<&str>
        }),
{
    if pos != line.len() {
        return None;
    }
    if !is_slash_command_exec(line) {
        return None;
    }
    Some(line)
}

/// Whether the picker opens: a `/` typed into an empty line.
pub fn should_trigger_slash_command_menu(line: &str, pos: usize) -> (r: bool)
    ensures
        r == (line@.len() == 0 && pos == 0),
{
    line.is_empty() && pos == 0
}

/// Whether a command takes arguments among the candidates.
fn takes_arguments_exec(completions: &Vec<String>, command: &[char]) -> (r: bool)
    ensures
        r == takes_arguments(views(completions@), command@),
{
    let mut extended: Vec<char> = Vec::new();
    let mut k: usize = 0;
    while k < command.len()
        invariant
            k <= command@.len(),
            extended@ == command@.take(k as int),
        decreases command@.len() - k,
    {
        extended.push(command[k]);
        k = k + 1;
        assert(extended@ =~= command@.take(k as int));
    }
    assert(command@.take(command@.len() as int) =~= command@);
    extended.push(' ');
    let ghost cs = views(completions@);
    let mut i: usize = 0;
    while i < completions.len()
        invariant
            cs == views(completions@),
            extended@ == command@.push(' '),
            i <= completions@.len(),
            forall|j: int| 0 <= j < i ==> !starts_with(#[trigger] cs[j], command@.push(' ')),
        decreases completions@.len() - i,
    {
        let cc = chars_of(completions[i].as_str());
        assert(cs[i as int] == completions@[i as int]@);
        if starts_with_chars(cc.as_slice(), extended.as_slice()) {
            return true;
        }
        i = i + 1;
    }
    false
}

/// The completion state of the line editor: the slash-command candidates and
/// the buffer the editor showed last.
#[derive(Debug)]
pub struct SlashCommandHelper {
    completions: Vec<String>,
    current_line: String,
}

impl SlashCommandHelper {
    /// The candidates.
    pub closed spec fn completions_view(&self) -> Seq<Seq<char>> {
        views(self.completions@)
    }

    /// The buffer the editor showed last.
    pub closed spec fn line_view(&self) -> Seq<char> {
        self.current_line@
    }

    #[verifier::type_invariant]
    closed spec fn normalized(&self) -> bool {
        &&& no_duplicates(views(self.completions@))
        &&& forall|i: int| 0 <= i < self.completions@.len() ==> is_slash_command(#[trigger] self.completions@[i]@)
    }

    /// A helper with the given candidates (normalized) and an empty buffer.
    pub fn new(completions: Vec<String>) -> (r: Self)
        ensures
            r.completions_view() == normalize(views(completions@)),
            r.line_view().len() == 0,
    {
        let normalized = normalize_completions(completions);
        proof {
            lemma_normalize(views(completions@));
            assert forall|i: int| 0 <= i < normalized@.len() implies is_slash_command(
                #[trigger] normalized@[i]@,
            ) by {
                assert(views(normalized@)[i] == normalized@[i]@);
            }
        }
        SlashCommandHelper { completions: normalized, current_line: String::new() }
    }

    /// The candidates.
    pub fn completions(&self) -> (r: &Vec<String>)
        ensures
            views(r@) == self.completions_view(),
    {
        &self.completions
    }

    /// Replaces the candidates (normalized).
    pub fn set_completions(&mut self, completions: Vec<String>)
        ensures
            final(self).completions_view() == normalize(views(completions@)),
            final(self).line_view() == old(self).line_view(),
    {
        let normalized = normalize_completions(completions);
        proof {
            lemma_normalize(views(completions@));
            assert forall|i: int| 0 <= i < normalized@.len() implies is_slash_command(
                #[trigger] normalized@[i]@,
            ) by {
                assert(views(normalized@)[i] == normalized@[i]@);
            }
        }
        self.completions = normalized;
    }

    /// Forgets the buffer.
    pub fn reset_current_line(&mut self)
        ensures
            final(self).line_view().len() == 0,
            final(self).completions_view() == old(self).completions_view(),
    {
        proof {
            use_type_invariant(&*self);
        }
        self.current_line = String::new();
    }

    /// The buffer the editor showed last.
    pub fn current_line(&self) -> (r: String)
        ensures
            r@ == self.line_view(),
    {
        copy_string(&self.current_line)
    }

    /// Records the buffer the editor shows.
    pub fn set_current_line(&mut self, line: &str)
        ensures
            final(self).line_view() == line@,
            final(self).completions_view() == old(self).completions_view(),
    {
        proof {
            use_type_invariant(&*self);
        }
        self.current_line = String::from_str(line);
    }

    /// The highlighting of a line, which records it as the current buffer
    /// and leaves it as it is.
    pub fn highlight<'l>(&mut self, line: &'l str, _pos: usize) -> (r: &'l str)
        ensures
            r == line,
            final(self).line_view() == line@,
            final(self).completions_view() == old(self).completions_view(),
    {
        self.set_current_line(line);
        line
    }

    /// Whether a typed character needs highlighting: never; the line is
    /// recorded as the current buffer.
    pub fn highlight_char(&mut self, line: &str, _pos: usize) -> (r: bool)
        ensures
            !r,
            final(self).line_view() == line@,
            final(self).completions_view() == old(self).completions_view(),
    {
        self.set_current_line(line);
        false
    }

    /// The completions of a line with the cursor at `pos`: where they start
    /// (always 0) and the candidates offered.
    pub fn complete(&self, line: &str, pos: usize) -> (r: (usize, Vec<String>))
        ensures
            r.0 == 0,
            views(r.1@) == (match slash_command_prefix_spec(line, pos) {
                Some(prefix) => offered_candidates(self.completions_view(), prefix),
                None => Seq::empty(),
            }),
    {
        let prefix = match slash_command_prefix(line, pos) {
            Some(p) => p,
            None => {
                let empty: Vec<String> = Vec::new();
                assert(views(empty@) =~= Seq::<Seq<char>>::empty());
                return (0, empty);
            },
        };
        let pc = chars_of(prefix);
        let model = chars_of("/model ");
        let bare_model = chars_of("/model");
        let prefix_is_model = starts_with_chars(pc.as_slice(), model.as_slice());
        let ghost cs = self.completions_view();
        let mut listed_first: Vec<String> = Vec::new();
        let mut listed_last: Vec<String> = Vec::new();
        let mut i: usize = 0;
        while i < self.completions.len()
            invariant
                cs == views(self.completions@),
                pc@ == prefix@,
                model@ == "/model "@,
                bare_model@ == "/model"@,
                prefix_is_model == starts_with(prefix@, "/model "@),
                i <= self.completions@.len(),
                views(listed_first@) == offered_group(cs.take(i as int), cs, prefix@, false),
                views(listed_last@) == offered_group(cs.take(i as int), cs, prefix@, true),
            decreases self.completions@.len() - i,
        {
            let c = &self.completions[i];
            let cc = chars_of(c.as_str());
            let ghost t = cs.take(i + 1);
            assert(t.drop_last() =~= cs.take(i as int));
            assert(t.last() == c@);
            if (!starts_with_chars(cc.as_slice(), model.as_slice()) || prefix_is_model)
                && starts_with_chars(cc.as_slice(), pc.as_slice()) {
                if chars_eq(cc.as_slice(), bare_model.as_slice()) && takes_arguments_exec(
                    &self.completions,
                    cc.as_slice(),
                ) {
                    let ghost before = views(listed_last@);
                    listed_last.push(copy_string(c));
                    assert(views(listed_last@) =~= before.push(c@));
                } else {
                    let ghost before = views(listed_first@);
                    listed_first.push(copy_string(c));
                    assert(views(listed_first@) =~= before.push(c@));
                }
            }
            i = i + 1;
        }
        assert(cs.take(self.completions@.len() as int) =~= cs);
        let ghost first = views(listed_first@);
        let ghost second = views(listed_last@);
        listed_first.append(&mut listed_last);
        assert(views(listed_first@) =~= first + second);
        (0, listed_first)
    }
}

/// The prefix [`slash_command_prefix`] finds, as characters.
pub open spec fn slash_command_prefix_spec(line: &str, pos: usize) -> Option<Seq<char>> {
    if pos == line.len() && is_slash_command(line@) {
        Some(line@)
    } else {
        None
    }
}

/// Any line that starts with `/`, with the cursor at its end, is completed
/// as a whole: the line `/` alone too.
pub proof fn lemma_slash_lines_are_completed(line: &str, pos: usize)
    requires
        line@.len() > 0,
        line@[0] == '/',
        pos == line.len(),
    ensures
        slash_command_prefix_spec(line, pos) == Some(line@),
{
}

} // verus!
