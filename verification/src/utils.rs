//! The structured commit message: a title plus free body lines, the
//! formatting of that pair into a single message string, and the pure
//! decision logic behind the interactive prompts (default handling, the
//! edit menu, commit types, reset modes).

use vstd::prelude::*;

use crate::text::{is_blank_line, is_digit_char, line_is_blank, lines_view};

verus! {

/// A commit annotation: a single-line title and zero or more body lines.
pub struct Entry {
    pub title: String,
    pub body: Vec<String>,
}

impl Entry {
    /// Title and body lines hold no line breaks.
    pub open spec fn wf(self) -> bool {
        &&& !self.title@.contains('\n')
        &&& forall|i: int| 0 <= i < self.body@.len() ==> !(#[trigger] self.body@[i]@).contains('\n')
    }
}

/// The body lines rendered for a commit message: each non-blank line on a
/// line of its own with a `- ` bullet; blank lines are dropped.
pub open spec fn bulleted_body(body: Seq<Seq<char>>) -> Seq<char>
    decreases body.len(),
{
    if body.len() == 0 {
        Seq::empty()
    } else {
        let rest = bulleted_body(body.drop_last());
        if is_blank_line(body.last()) {
            rest
        } else {
            rest + seq!['\n'] + "- "@ + body.last()
        }
    }
}

/// The full commit message text of an entry: the title, then the bulleted
/// body lines.
pub open spec fn commit_content(title: Seq<char>, body: Seq<Seq<char>>) -> Seq<char> {
    title + bulleted_body(body)
}

/// Formats an entry as a commit message string.
pub fn format_commit_content(content: &Entry) -> (r: String)
    ensures
        r@ == commit_content(content.title@, lines_view(content.body@)),
{
    let mut out = content.title.clone();
    let ghost body = lines_view(content.body@);
    proof {
        assert(body.take(0) =~= Seq::<Seq<char>>::empty());
        assert(out@ =~= commit_content(content.title@, body.take(0)));
    }
    let mut i: usize = 0;
    while i < content.body.len()
        invariant
            i <= content.body@.len(),
            body == lines_view(content.body@),
            out@ == commit_content(content.title@, body.take(i as int)),
        decreases content.body@.len() - i,
    {
        proof {
            assert(body.take(i + 1).drop_last() =~= body.take(i as int));
            assert(body.take(i + 1).last() == body[i as int]);
            assert(content.body@[i as int]@ == body[i as int]);
        }
        if !line_is_blank(content.body[i].as_str()) {
            out.append("\n- ");
            out.append(content.body[i].as_str());
            proof {
                reveal_strlit("\n- ");
                reveal_strlit("- ");
                assert(("\n- ")@ =~= seq!['\n'] + ("- ")@);
                assert(out@ =~= commit_content(content.title@, body.take(i + 1)));
            }
        }
        i = i + 1;
    }
    proof {
        assert(body.take(content.body@.len() as int) =~= body);
    }
    out
}

/// The prompt shown when asking for an input that has a default.
pub fn input_prompt(message: &str, default: &str) -> (r: String)
    ensures
        r@ == message@ + " (default: "@ + default@ + "): "@,
{
    let mut out = String::from_str(message);
    out.append(" (default: ");
    out.append(default);
    out.append("): ");
    out
}

/// Interprets a line read for a prompt with a default: an empty input keeps
/// the default, anything else is taken as given.
pub fn input_with_default(input: &str) -> (r: Option<String>)
    ensures
        match r {
            Option::None => input@.len() == 0,
            Option::Some(s) => input@.len() > 0 && s@ == input@,
        },
{
    if input.is_empty() {
        None
    } else {
        Some(String::from_str(input))
    }
}

/// A slot of the edit menu, as chosen by its number.
#[derive(PartialEq, Eq, Debug, Clone, Copy)]
pub enum EditChoice {
    /// Leave the entry as it is and stop editing.
    Stay,
    /// Replace the title.
    EditTitle,
    /// Replace the body line at this index.
    EditLine(usize),
    /// Append a new body line.
    AddLine,
    /// Drop the last body line.
    RemoveLast,
}

/// The menu slot a choice number denotes, for an entry with `body_len` body
/// lines: `0` stays, `1` edits the title, `2..=body_len + 1` edit one body
/// line, the next number adds a line, the one after removes the last line
/// (only offered when there is one), and anything else stays.
pub open spec fn edit_choice_spec(choice: int, body_len: int) -> EditChoice {
    if choice == 0 {
        EditChoice::Stay
    } else if choice == 1 {
        EditChoice::EditTitle
    } else if 2 <= choice && choice <= body_len + 1 {
        EditChoice::EditLine((choice - 2) as usize)
    } else if choice == body_len + 2 {
        EditChoice::AddLine
    } else if choice == body_len + 3 && body_len > 0 {
        EditChoice::RemoveLast
    } else {
        EditChoice::Stay
    }
}

/// Maps a menu number to the edit it selects.
pub fn classify_edit_choice(choice: usize, body_len: usize) -> (r: EditChoice)
    ensures
        r == edit_choice_spec(choice as int, body_len as int),
{
    if choice == 0 {
        EditChoice::Stay
    } else if choice == 1 {
        EditChoice::EditTitle
    } else if choice >= 2 && choice - 2 < body_len {
        EditChoice::EditLine(choice - 2)
    } else if choice >= 2 && choice - 2 == body_len {
        EditChoice::AddLine
    } else if choice >= 3 && choice - 3 == body_len && body_len > 0 {
        EditChoice::RemoveLast
    } else {
        EditChoice::Stay
    }
}

/// One edit applied to a draft entry.
#[derive(PartialEq, Eq, Debug)]
pub enum EditAction {
    /// Leave the entry as it is.
    Keep,
    /// Replace the title; an empty replacement keeps the old title.
    SetTitle(String),
    /// Replace the body line at the index; an empty replacement keeps it.
    SetLine(usize, String),
    /// Append a body line; an empty line is not added.
    AddLine(String),
    /// Drop the last body line, when there is one.
    RemoveLast,
}

/// Applies one edit to the draft entry. Returns whether an edit slot was
/// acted on (even if the given text was empty and nothing changed), which is
/// what keeps the interactive edit loop going.
pub fn edit_commit_content(content: &mut Entry, action: &EditAction) -> (r: bool)
    ensures
        match *action {
            EditAction::Keep => !r && *final(content) == *old(content),
            EditAction::SetTitle(t) => r && final(content).body == old(content).body && (if t@.len()
                == 0 {
                final(content).title == old(content).title
            } else {
                final(content).title == t
            }),
            EditAction::SetLine(i, t) => (if i < old(content).body@.len() {
                r && final(content).title == old(content).title && (if t@.len() == 0 {
                    final(content).body == old(content).body
                } else {
                    final(content).body@ == old(content).body@.update(i as int, t)
                })
            } else {
                !r && *final(content) == *old(content)
            }),
            EditAction::AddLine(t) => r && final(content).title == old(content).title && (if t@.len()
                == 0 {
                final(content).body == old(content).body
            } else {
                final(content).body@ == old(content).body@.push(t)
            }),
            EditAction::RemoveLast => (if old(content).body@.len() > 0 {
                r && final(content).title == old(content).title && final(content).body@ == old(
                    content,
                ).body@.drop_last()
            } else {
                !r && *final(content) == *old(content)
            }),
        },
{
    match action {
        EditAction::Keep => false,
        EditAction::SetTitle(t) => {
            if !t.as_str().is_empty() {
                content.title = t.clone();
            }
            true
        },
        EditAction::SetLine(i, t) => {
            if *i < content.body.len() {
                if !t.as_str().is_empty() {
                    content.body.set(*i, t.clone());
                }
                true
            } else {
                false
            }
        },
        EditAction::AddLine(t) => {
            if !t.as_str().is_empty() {
                content.body.push(t.clone());
            }
            true
        },
        EditAction::RemoveLast => {
            if content.body.len() > 0 {
                content.body.pop();
                proof {
                    assert(final(content).body@ =~= old(content).body@.drop_last());
                }
                true
            } else {
                false
            }
        },
    }
}

/// Whether every character of the string is a decimal digit.
pub open spec fn all_digits(s: Seq<char>) -> bool {
    forall|i: int| 0 <= i < s.len() ==> is_digit_char(#[trigger] s[i])
}

/// The numeric value of a digit string, most significant digit first.
pub open spec fn digits_val(s: Seq<char>) -> nat
    decreases s.len(),
{
    if s.len() == 0 {
        0
    } else {
        digits_val(s.drop_last()) * 10 + (((s.last() as u32) - 48) as nat)
    }
}

/// How a menu answer is read as a number: a non-empty all-digit string that
/// fits the machine gives its value, anything else gives zero.
pub open spec fn parse_choice_spec(s: Seq<char>) -> nat {
    if s.len() >= 1 && all_digits(s) && digits_val(s) <= usize::MAX {
        digits_val(s)
    } else {
        0
    }
}

proof fn lemma_digits_val_prefix(s: Seq<char>, k: int)
    requires
        0 <= k <= s.len(),
    ensures
        digits_val(s.take(k)) <= digits_val(s),
    decreases s.len() - k,
{
    if k < s.len() {
        assert(s.take(k + 1).drop_last() =~= s.take(k));
        lemma_digits_val_prefix(s, k + 1);
    } else {
        assert(s.take(k) =~= s);
    }
}

/// Reads a menu answer as a number, zero when it is not one.
pub fn parse_choice(s: &str) -> (r: usize)
    ensures
        r as nat == parse_choice_spec(s@),
{
    let len = s.unicode_len();
    if len == 0 {
        return 0;
    }
    let mut val: usize = 0;
    let mut i: usize = 0;
    proof {
        assert(s@.take(0) =~= Seq::<char>::empty());
    }
    while i < len
        invariant
            i <= len,
            len == s@.len(),
            all_digits(s@.take(i as int)),
            val as nat == digits_val(s@.take(i as int)),
        decreases len - i,
    {
        let c = s.get_char(i);
        proof {
            assert(s@.take(i + 1).drop_last() =~= s@.take(i as int));
            assert(s@.take(i + 1).last() == s@[i as int]);
        }
        if !crate::text::is_digit(c) {
            assert(!all_digits(s@));
            return 0;
        }
        let d = (c as u32 - 48) as usize;
        if val > (usize::MAX - d) / 10 {
            proof {
                assert(digits_val(s@.take(i + 1)) > usize::MAX);
                lemma_digits_val_prefix(s@, i + 1);
            }
            return 0;
        }
        val = val * 10 + d;
        i = i + 1;
    }
    proof {
        assert(s@.take(len as int) =~= s@);
    }
    val
}

/// The conventional-commit types offered when a message is gathered.
#[derive(PartialEq, Eq, Debug, Clone, Copy)]
pub enum CommitType {
    Feat,
    Fix,
    Docs,
    Style,
    Refactor,
    Perf,
    Test,
    Build,
    Ci,
    Chore,
    Revert,
}

impl CommitType {
    /// The tag written in front of the commit title.
    pub open spec fn tag_spec(self) -> Seq<char> {
        match self {
            CommitType::Feat => "feat"@,
            CommitType::Fix => "fix"@,
            CommitType::Docs => "docs"@,
            CommitType::Style => "style"@,
            CommitType::Refactor => "refactor"@,
            CommitType::Perf => "perf"@,
            CommitType::Test => "test"@,
            CommitType::Build => "build"@,
            CommitType::Ci => "ci"@,
            CommitType::Chore => "chore"@,
            CommitType::Revert => "revert"@,
        }
    }

    /// The commit type a menu index denotes, in the order they are offered.
    pub open spec fn index_spec(i: int) -> Option<CommitType> {
        if i == 0 {
            Some(CommitType::Feat)
        } else if i == 1 {
            Some(CommitType::Fix)
        } else if i == 2 {
            Some(CommitType::Docs)
        } else if i == 3 {
            Some(CommitType::Style)
        } else if i == 4 {
            Some(CommitType::Refactor)
        } else if i == 5 {
            Some(CommitType::Perf)
        } else if i == 6 {
            Some(CommitType::Test)
        } else if i == 7 {
            Some(CommitType::Build)
        } else if i == 8 {
            Some(CommitType::Ci)
        } else if i == 9 {
            Some(CommitType::Chore)
        } else if i == 10 {
            Some(CommitType::Revert)
        } else {
            None
        }
    }

    /// The tag as a string slice.
    pub fn tag(&self) -> (r: &'static str)
        ensures
            r@ == self.tag_spec(),
    {
        match self {
            CommitType::Feat => "feat",
            CommitType::Fix => "fix",
            CommitType::Docs => "docs",
            CommitType::Style => "style",
            CommitType::Refactor => "refactor",
            CommitType::Perf => "perf",
            CommitType::Test => "test",
            CommitType::Build => "build",
            CommitType::Ci => "ci",
            CommitType::Chore => "chore",
            CommitType::Revert => "revert",
        }
    }

    /// The commit type at a menu index.
    pub fn from_index(i: usize) -> (r: Option<CommitType>)
        ensures
            r == Self::index_spec(i as int),
    {
        if i == 0 {
            Some(CommitType::Feat)
        } else if i == 1 {
            Some(CommitType::Fix)
        } else if i == 2 {
            Some(CommitType::Docs)
        } else if i == 3 {
            Some(CommitType::Style)
        } else if i == 4 {
            Some(CommitType::Refactor)
        } else if i == 5 {
            Some(CommitType::Perf)
        } else if i == 6 {
            Some(CommitType::Test)
        } else if i == 7 {
            Some(CommitType::Build)
        } else if i == 8 {
            Some(CommitType::Ci)
        } else if i == 9 {
            Some(CommitType::Chore)
        } else if i == 10 {
            Some(CommitType::Revert)
        } else {
            None
        }
    }
}

/// Joins a commit type and a subject into the commit title `tag: subject`.
pub fn compose_title(commit_type: &CommitType, subject: &str) -> (r: String)
    ensures
        r@ == commit_type.tag_spec() + ": "@ + subject@,
{
    let mut out = String::from_str(commit_type.tag());
    out.append(": ");
    out.append(subject);
    out
}

/// The modes a reset can run in.
#[derive(PartialEq, Eq, Debug, Clone, Copy)]
pub enum ResetMode {
    Soft,
    Mixed,
    Hard,
}

impl ResetMode {
    /// The mode name handed to the version-control client.
    pub open spec fn name_spec(self) -> Seq<char> {
        match self {
            ResetMode::Soft => "soft"@,
            ResetMode::Mixed => "mixed"@,
            ResetMode::Hard => "hard"@,
        }
    }

    /// The reset mode a menu index denotes: soft, mixed, hard.
    pub open spec fn index_spec(i: int) -> Option<ResetMode> {
        if i == 0 {
            Some(ResetMode::Soft)
        } else if i == 1 {
            Some(ResetMode::Mixed)
        } else if i == 2 {
            Some(ResetMode::Hard)
        } else {
            None
        }
    }

    /// The mode name as a string slice.
    pub fn name(&self) -> (r: &'static str)
        ensures
            r@ == self.name_spec(),
    {
        match self {
            ResetMode::Soft => "soft",
            ResetMode::Mixed => "mixed",
            ResetMode::Hard => "hard",
        }
    }

    /// The reset mode at a menu index.
    pub fn from_index(i: usize) -> (r: Option<ResetMode>)
        ensures
            r == Self::index_spec(i as int),
    {
        if i == 0 {
            Some(ResetMode::Soft)
        } else if i == 1 {
            Some(ResetMode::Mixed)
        } else if i == 2 {
            Some(ResetMode::Hard)
        } else {
            None
        }
    }
}

} // verus!
