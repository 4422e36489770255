//! The changelog manager: a cumulative development log and a per-day log,
//! each modelled as the lines of its document. Recording a commit message
//! appends an ordinal entry to the today log while its header still names
//! today, and otherwise rolls the finished day into the cumulative log and
//! starts a fresh one.

use vstd::prelude::*;

use crate::text::{
    dec_str, is_blank_line, is_digit_char, is_space_char, line_is_blank, line_marks_entry,
    lines_view,
    lemma_dec_str_digits, lemma_digit_not_space, lemma_msg_lines_append_line, lemma_msg_lines_len,
    lemma_msg_lines_no_nl, lemma_msg_lines_single, marks_entry, msg_lines, split_lines, str_eq,
    text_of, usize_to_string,
};
use crate::utils::{commit_content, Entry};

verus! {

/// The header line of a today log for the given date.
pub open spec fn header_line(today: Seq<char>) -> Seq<char> {
    "## "@ + today
}

/// The title line a fresh cumulative log is created with.
pub open spec fn main_title_line() -> Seq<char> {
    "# Development Log"@
}

/// All lines of a document are free of line breaks.
pub open spec fn lines_ok(ls: Seq<Seq<char>>) -> bool {
    forall|i: int| 0 <= i < ls.len() ==> !(#[trigger] ls[i]).contains('\n')
}

/// The continuation lines of an entry: every non-blank line indented three
/// spaces, blank lines dropped.
pub open spec fn indent_rest(ls: Seq<Seq<char>>) -> Seq<Seq<char>>
    decreases ls.len(),
{
    if ls.len() == 0 {
        Seq::empty()
    } else {
        let rest = indent_rest(ls.drop_last());
        if is_blank_line(ls.last()) {
            rest
        } else {
            rest + seq!["   "@ + ls.last()]
        }
    }
}

/// The lines of the ordinal entry numbered `n` for a message: `n. ` before
/// the message's first line, each further non-blank line indented three
/// spaces, blank lines dropped.
pub open spec fn block_lines(n: nat, m: Seq<char>) -> Seq<Seq<char>> {
    seq![dec_str(n) + ". "@ + msg_lines(m)[0]] + indent_rest(msg_lines(m).drop_first())
}

/// The lines of a fresh today log: the date header, a blank line, and the
/// message as entry number one.
pub open spec fn fresh_log_lines(today: Seq<char>, m: Seq<char>) -> Seq<Seq<char>> {
    seq![header_line(today), Seq::<char>::empty()] + block_lines(1, m)
}

/// Whether some line of the document equals the header.
pub open spec fn scan_match(ls: Seq<Seq<char>>, hdr: Seq<char>) -> bool {
    exists|i: int| 0 <= i < ls.len() && ls[i] == hdr
}

/// The number of top-level ordinal entries seen from the first header line
/// on: a line counts when the header has already been seen (that line
/// included) and its trimmed form starts with a digit.
pub open spec fn scan_count(ls: Seq<Seq<char>>, hdr: Seq<char>) -> nat
    decreases ls.len(),
{
    if ls.len() == 0 {
        0
    } else {
        scan_count(ls.drop_last(), hdr) + if scan_match(ls, hdr) && line_marks_entry(ls.last()) {
            1nat
        } else {
            0nat
        }
    }
}

/// The cumulative log after it has been made to exist: an absent log becomes
/// a log of just the title line, an existing one is untouched.
pub open spec fn ensured_cumulative(c: Option<Seq<Seq<char>>>) -> Seq<Seq<char>> {
    match c {
        Option::Some(l) => l,
        Option::None => seq![main_title_line()],
    }
}

/// The cumulative log after one message is recorded: it is made to exist,
/// and when the today log's header no longer names today, the whole today
/// log is appended to it after one blank line.
pub open spec fn record_cumulative(
    cum: Option<Seq<Seq<char>>>,
    tl: Option<Seq<Seq<char>>>,
    today: Seq<char>,
) -> Seq<Seq<char>> {
    let base = ensured_cumulative(cum);
    match tl {
        Option::None => base,
        Option::Some(old_log) => if scan_match(old_log, header_line(today)) {
            base
        } else {
            base + seq![Seq::<char>::empty()] + old_log
        },
    }
}

/// The today log after one message is recorded: created fresh when absent,
/// extended by the next ordinal entry while its header names today, and
/// replaced by a fresh log after a rollover.
pub open spec fn record_today(
    tl: Option<Seq<Seq<char>>>,
    m: Seq<char>,
    today: Seq<char>,
) -> Seq<Seq<char>> {
    match tl {
        Option::None => fresh_log_lines(today, m),
        Option::Some(old_log) => {
            let hdr = header_line(today);
            if scan_match(old_log, hdr) {
                old_log + block_lines(scan_count(old_log, hdr) + 1, m)
            } else {
                fresh_log_lines(today, m)
            }
        },
    }
}

/// A document held as its lines, or absent.
pub open spec fn opt_lines_ok(o: Option<Vec<String>>) -> bool {
    match o {
        Option::Some(v) => lines_ok(lines_view(v@)),
        Option::None => true,
    }
}

/// The two log documents, each absent or held as its lines.
pub struct LogState {
    pub cumulative: Option<Vec<String>>,
    pub today_log: Option<Vec<String>>,
}

impl LogState {
    /// The cumulative log's lines, when it exists.
    pub open spec fn cum_view(self) -> Option<Seq<Seq<char>>> {
        match self.cumulative {
            Option::Some(v) => Option::Some(lines_view(v@)),
            Option::None => Option::None,
        }
    }

    /// The today log's lines, when it exists.
    pub open spec fn today_view(self) -> Option<Seq<Seq<char>>> {
        match self.today_log {
            Option::Some(v) => Option::Some(lines_view(v@)),
            Option::None => Option::None,
        }
    }

    /// No held line contains a line break.
    pub open spec fn wf(self) -> bool {
        opt_lines_ok(self.cumulative) && opt_lines_ok(self.today_log)
    }

    /// A state with both logs absent.
    pub fn new() -> (r: LogState)
        ensures
            r.cumulative is None,
            r.today_log is None,
            r.wf(),
    {
        LogState { cumulative: None, today_log: None }
    }

    /// Makes the cumulative log exist: absent, it is created with a single
    /// title line; present, it is left exactly as it is.
    pub fn check_or_create_main_log_file(&mut self)
        ensures
            final(self).cum_view() == Option::Some(ensured_cumulative(old(self).cum_view())),
            final(self).today_log == old(self).today_log,
            old(self).cumulative is Some ==> final(self).cumulative == old(self).cumulative,
            old(self).wf() ==> final(self).wf(),
    {
        if self.cumulative.is_none() {
            let mut v: Vec<String> = Vec::new();
            v.push(String::from_str("# Development Log"));
            proof {
                assert(lines_view(v@) =~= seq![main_title_line()]);
                assert(!main_title_line().contains('\n')) by {
                    reveal_strlit("# Development Log");
                }
            }
            self.cumulative = Some(v);
        }
    }

    /// Creates a fresh today log for the date, holding the message as entry
    /// number one. The cumulative log is untouched.
    pub fn create_today_log_file(&mut self, today: &str, commit_message: &str)
        requires
            !today@.contains('\n'),
        ensures
            final(self).cumulative == old(self).cumulative,
            final(self).today_view() == Option::Some(
                fresh_log_lines(today@, commit_message@),
            ),
            opt_lines_ok(final(self).today_log),
    {
        let mut hdr = String::from_str("## ");
        hdr.append(today);
        proof {
            assert(hdr@ == header_line(today@));
            assert(!hdr@.contains('\n')) by {
                reveal_strlit("## ");
                assert(forall|i: int| 0 <= i < hdr@.len() ==> hdr@[i] != '\n');
            }
        }
        let mut v: Vec<String> = Vec::new();
        v.push(hdr);
        v.push(String::new());
        let block = format_entry_block(1, commit_message);
        let ghost head = lines_view(v@);
        proof {
            assert(head =~= seq![header_line(today@), Seq::<char>::empty()]);
            assert(lines_view(block@).take(0) =~= Seq::<Seq<char>>::empty());
            assert(lines_view(v@) =~= head + lines_view(block@).take(0));
        }
        let mut i: usize = 0;
        while i < block.len()
            invariant
                i <= block@.len(),
                head == seq![header_line(today@), Seq::<char>::empty()],
                lines_view(v@) == head + lines_view(block@).take(i as int),
                lines_ok(lines_view(block@)),
                lines_ok(head),
                lines_ok(lines_view(v@)),
            decreases block@.len() - i,
        {
            let line = block[i].clone();
            let ghost prev = lines_view(v@);
            proof {
                assert(line@ == lines_view(block@)[i as int]);
            }
            v.push(line);
            proof {
                assert(lines_view(v@) =~= prev.push(lines_view(block@)[i as int]));
                assert(lines_view(block@).take(i + 1).drop_last() =~= lines_view(block@).take(
                    i as int,
                ));
                assert(lines_view(block@).take(i + 1).last() == lines_view(block@)[i as int]);
                assert(prev.push(lines_view(block@)[i as int]) =~= head + lines_view(block@).take(
                    i + 1,
                ));
            }
            i = i + 1;
        }
        proof {
            assert(lines_view(block@).take(block@.len() as int) =~= lines_view(block@));
            assert(lines_view(v@) =~= fresh_log_lines(today@, commit_message@));
        }
        self.today_log = Some(v);
    }

    /// Updates an existing today log for the message: while the header still
    /// names today, the next ordinal entry is appended; otherwise the whole
    /// log is rolled into the cumulative log (after one blank line) and a
    /// fresh today log is started.
    pub fn update_today_log_file(&mut self, today: &str, commit_message: &str)
        requires
            old(self).wf(),
            old(self).cumulative is Some,
            old(self).today_log is Some,
            !today@.contains('\n'),
            match old(self).today_log {
                Option::Some(v) => v@.len() < usize::MAX,
                Option::None => true,
            },
        ensures
            final(self).cum_view() == Option::Some(
                record_cumulative(old(self).cum_view(), old(self).today_view(), today@),
            ),
            final(self).today_view() == Option::Some(
                record_today(old(self).today_view(), commit_message@, today@),
            ),
            final(self).wf(),
    {
        let (date_match, log_count) = match &self.today_log {
            Some(tl) => check_log_file_date(tl, today),
            None => (false, 0),
        };
        if date_match {
            let block = format_entry_block(log_count + 1, commit_message);
            let mut v = self.today_log.take().unwrap();
            let ghost base = lines_view(v@);
            proof {
                assert(lines_view(block@).take(0) =~= Seq::<Seq<char>>::empty());
                assert(lines_view(v@) =~= base + lines_view(block@).take(0));
            }
            let mut i: usize = 0;
            while i < block.len()
                invariant
                    i <= block@.len(),
                    lines_view(v@) == base + lines_view(block@).take(i as int),
                    lines_ok(lines_view(block@)),
                    lines_ok(base),
                    lines_ok(lines_view(v@)),
                decreases block@.len() - i,
            {
                let line = block[i].clone();
                let ghost prev = lines_view(v@);
                proof {
                    assert(line@ == lines_view(block@)[i as int]);
                }
                v.push(line);
                proof {
                    assert(lines_view(v@) =~= prev.push(lines_view(block@)[i as int]));
                    assert(lines_view(block@).take(i + 1).drop_last() =~= lines_view(block@).take(
                        i as int,
                    ));
                    assert(lines_view(block@).take(i + 1).last() == lines_view(block@)[i as int]);
                    assert(prev.push(lines_view(block@)[i as int]) =~= base + lines_view(
                        block@,
                    ).take(i + 1));
                }
                i = i + 1;
            }
            proof {
                assert(lines_view(block@).take(block@.len() as int) =~= lines_view(block@));
            }
            self.today_log = Some(v);
        } else {
            let old_tl = self.today_log.take().unwrap();
            let mut cum = self.cumulative.take().unwrap();
            let ghost base = lines_view(cum@);
            let ghost rolled = lines_view(old_tl@);
            cum.push(String::new());
            proof {
                assert(rolled.take(0) =~= Seq::<Seq<char>>::empty());
                assert(lines_view(cum@) =~= (base + seq![Seq::<char>::empty()]) + rolled.take(0));
            }
            let mut i: usize = 0;
            while i < old_tl.len()
                invariant
                    i <= old_tl@.len(),
                    rolled == lines_view(old_tl@),
                    lines_view(cum@) == (base + seq![Seq::<char>::empty()]) + rolled.take(i as int),
                    lines_ok(base),
                    lines_ok(rolled),
                    lines_ok(lines_view(cum@)),
                decreases old_tl@.len() - i,
            {
                let line = old_tl[i].clone();
                let ghost prev = lines_view(cum@);
                proof {
                    assert(line@ == rolled[i as int]);
                }
                cum.push(line);
                proof {
                    assert(lines_view(cum@) =~= prev.push(rolled[i as int]));
                    assert(rolled.take(i + 1).drop_last() =~= rolled.take(i as int));
                    assert(rolled.take(i + 1).last() == rolled[i as int]);
                    assert(prev.push(rolled[i as int]) =~= (base + seq![Seq::<char>::empty()])
                        + rolled.take(i + 1));
                }
                i = i + 1;
            }
            proof {
                assert(rolled.take(old_tl@.len() as int) =~= rolled);
            }
            self.cumulative = Some(cum);
            self.create_today_log_file(today, commit_message);
        }
    }

    /// Records one commit message for the given date: the cumulative log is
    /// made to exist, and the message becomes the day's next ordinal entry,
    /// with a rollover first when the today log's header no longer names
    /// today.
    pub fn update_log_files(&mut self, commit_message: &str, today: &str)
        requires
            old(self).wf(),
            !today@.contains('\n'),
            match old(self).today_log {
                Option::Some(v) => v@.len() < usize::MAX,
                Option::None => true,
            },
        ensures
            final(self).cum_view() == Option::Some(
                record_cumulative(old(self).cum_view(), old(self).today_view(), today@),
            ),
            final(self).today_view() == Option::Some(
                record_today(old(self).today_view(), commit_message@, today@),
            ),
            final(self).wf(),
    {
        self.check_or_create_main_log_file();
        if self.today_log.is_none() {
            self.create_today_log_file(today, commit_message);
        } else {
            self.update_today_log_file(today, commit_message);
        }
    }

    /// Records one structured entry for the given date: the entry is
    /// formatted as its commit message and recorded. A non-empty title is the
    /// caller's responsibility; the interactive boundary never hands an
    /// empty one on.
    pub fn record_entry(&mut self, message: &Entry, today: &str)
        requires
            message.title@.len() > 0,
            old(self).wf(),
            !today@.contains('\n'),
            match old(self).today_log {
                Option::Some(v) => v@.len() < usize::MAX,
                Option::None => true,
            },
        ensures
            final(self).cum_view() == Option::Some(
                record_cumulative(old(self).cum_view(), old(self).today_view(), today@),
            ),
            final(self).today_view() == Option::Some(
                record_today(
                    old(self).today_view(),
                    commit_content(message.title@, lines_view(message.body@)),
                    today@,
                ),
            ),
            final(self).wf(),
    {
        let msg = crate::utils::format_commit_content(message);
        self.update_log_files(msg.as_str(), today);
    }
}

/// The lines kept by the markdown formatter: blank lines dropped.
pub open spec fn drop_blank_lines(ls: Seq<Seq<char>>) -> Seq<Seq<char>>
    decreases ls.len(),
{
    if ls.len() == 0 {
        Seq::empty()
    } else {
        let rest = drop_blank_lines(ls.drop_last());
        if is_blank_line(ls.last()) {
            rest
        } else {
            rest.push(ls.last())
        }
    }
}

/// A commit message fitted for a markdown list entry: the first line kept as
/// the title, every later blank line dropped, the rest joined back with
/// single line breaks.
pub open spec fn markdown_message(m: Seq<char>) -> Seq<char> {
    crate::text::join_lines(seq![msg_lines(m)[0]] + drop_blank_lines(msg_lines(m).drop_first()))
}

/// Formats a commit message so that it keeps a markdown list's structure:
/// the first line is the title, later blank lines are dropped.
pub fn format_commit_message_for_markdown(commit_message: &str) -> (r: String)
    ensures
        r@ == markdown_message(commit_message@),
{
    let parts = split_lines(commit_message);
    let ghost all = msg_lines(commit_message@);
    proof {
        lemma_msg_lines_len(commit_message@);
        assert(parts@.len() == all.len());
        assert(parts@[0]@ == all[0]);
    }
    let mut out = parts[0].clone();
    let ghost rest = all.drop_first();
    proof {
        assert(rest.subrange(0, 0) =~= Seq::<Seq<char>>::empty());
        assert(out@ == crate::text::join_lines(
            seq![all[0]] + drop_blank_lines(rest.subrange(0, 0)),
        ));
    }
    let mut i: usize = 1;
    while i < parts.len()
        invariant
            1 <= i <= parts@.len(),
            parts@.len() == all.len(),
            all == msg_lines(commit_message@),
            rest == all.drop_first(),
            lines_view(parts@) == all,
            out@ == crate::text::join_lines(
                seq![all[0]] + drop_blank_lines(rest.subrange(0, i - 1)),
            ),
        decreases parts@.len() - i,
    {
        proof {
            assert(rest.subrange(0, i as int).drop_last() =~= rest.subrange(0, i - 1));
            assert(rest.subrange(0, i as int).last() == all[i as int]);
            assert(parts@[i as int]@ == all[i as int]);
        }
        if !line_is_blank(parts[i].as_str()) {
            out.append("\n");
            out.append(parts[i].as_str());
            proof {
                reveal_strlit("\n");
                let kept = seq![all[0]] + drop_blank_lines(rest.subrange(0, i - 1));
                let grown = seq![all[0]] + drop_blank_lines(rest.subrange(0, i as int));
                assert(grown =~= kept.push(all[i as int]));
                assert(kept.push(all[i as int]).drop_last() =~= kept);
                assert(out@ =~= crate::text::join_lines(grown));
            }
        } else {
            proof {
                assert(drop_blank_lines(rest.subrange(0, i as int)) == drop_blank_lines(
                    rest.subrange(0, i - 1),
                ));
            }
        }
        i = i + 1;
    }
    proof {
        assert(rest.subrange(0, parts@.len() - 1) =~= rest);
    }
    out
}

/// Scans a today log's lines for the date header and counts the top-level
/// ordinal entries seen from the header on: a top-level entry is a line
/// whose trimmed form starts with a decimal digit.
pub fn check_log_file_date(lines: &Vec<String>, today: &str) -> (r: (bool, usize))
    ensures
        r.0 == scan_match(lines_view(lines@), header_line(today@)),
        r.1 as nat == scan_count(lines_view(lines@), header_line(today@)),
        r.1 <= lines@.len(),
{
    let mut hdr = String::from_str("## ");
    hdr.append(today);
    let ghost full = lines_view(lines@);
    let ghost h = header_line(today@);
    proof {
        assert(hdr@ == h);
        assert(full.take(0) =~= Seq::<Seq<char>>::empty());
    }
    let mut date_match = false;
    let mut log_count: usize = 0;
    let mut i: usize = 0;
    while i < lines.len()
        invariant
            i <= lines@.len(),
            full == lines_view(lines@),
            hdr@ == h,
            date_match == scan_match(full.take(i as int), h),
            log_count as nat == scan_count(full.take(i as int), h),
            log_count <= i,
        decreases lines@.len() - i,
    {
        proof {
            assert(full.take(i + 1).drop_last() =~= full.take(i as int));
            assert(full.take(i + 1).last() == full[i as int]);
        }
        if !date_match && str_eq(lines[i].as_str(), hdr.as_str()) {
            date_match = true;
            proof {
                assert(full.take(i + 1)[i as int] == h);
            }
        }
        proof {
            assert(scan_match(full.take(i + 1), h) == (scan_match(full.take(i as int), h) || full[i
                as int] == h)) by {
                if scan_match(full.take(i as int), h) {
                    let j = choose|j: int| 0 <= j < i && #[trigger] full.take(i as int)[j] == h;
                    assert(full.take(i + 1)[j] == h);
                }
                if scan_match(full.take(i + 1), h) && full[i as int] != h {
                    let j = choose|j: int| 0 <= j < i + 1 && #[trigger] full.take(i + 1)[j] == h;
                    assert(full.take(i as int)[j] == h);
                }
            }
        }
        if date_match && marks_entry(lines[i].as_str()) {
            log_count = log_count + 1;
        }
        i = i + 1;
    }
    proof {
        assert(full.take(lines@.len() as int) =~= full);
    }
    (date_match, log_count)
}

/// Builds the lines of the ordinal entry numbered `n` for a message.
pub fn format_entry_block(n: usize, commit_message: &str) -> (r: Vec<String>)
    ensures
        lines_view(r@) == block_lines(n as nat, commit_message@),
        lines_ok(lines_view(r@)),
{
    let parts = split_lines(commit_message);
    let ghost all = msg_lines(commit_message@);
    proof {
        lemma_msg_lines_len(commit_message@);
        lemma_msg_lines_no_nl(commit_message@);
        assert(parts@.len() == all.len());
    }
    let mut first = usize_to_string(n);
    first.append(". ");
    first.append(parts[0].as_str());
    proof {
        assert(parts@[0]@ == all[0]);
        assert(first@ == dec_str(n as nat) + ". "@ + all[0]);
        assert(!first@.contains('\n')) by {
            lemma_dec_str_digits(n as nat);
            reveal_strlit(". ");
            assert forall|k: int| 0 <= k < first@.len() implies first@[k] != '\n' by {
                if k < dec_str(n as nat).len() {
                    assert(is_digit_char(dec_str(n as nat)[k]));
                    lemma_digit_not_space(dec_str(n as nat)[k]);
                } else if k < dec_str(n as nat).len() + 2 {
                } else {
                    assert(first@[k] == all[0][k - dec_str(n as nat).len() - 2]);
                    assert(!all[0].contains('\n'));
                }
            }
        }
    }
    let mut out: Vec<String> = Vec::new();
    out.push(first);
    let ghost rest = all.drop_first();
    proof {
        assert(lines_view(out@) =~= seq![dec_str(n as nat) + ". "@ + all[0]] + indent_rest(
            rest.subrange(0, 0),
        ));
    }
    let mut i: usize = 1;
    while i < parts.len()
        invariant
            1 <= i <= parts@.len(),
            parts@.len() == all.len(),
            all == msg_lines(commit_message@),
            rest == all.drop_first(),
            lines_view(parts@) == all,
            lines_view(out@) == seq![dec_str(n as nat) + ". "@ + all[0]] + indent_rest(
                rest.subrange(0, i - 1),
            ),
            lines_ok(lines_view(out@)),
        decreases parts@.len() - i,
    {
        proof {
            assert(rest.subrange(0, i as int).drop_last() =~= rest.subrange(0, i - 1));
            assert(rest.subrange(0, i as int).last() == all[i as int]);
            assert(parts@[i as int]@ == all[i as int]);
            lemma_msg_lines_no_nl(commit_message@);
            assert(!all[i as int].contains('\n'));
        }
        if !line_is_blank(parts[i].as_str()) {
            let mut cont = String::from_str("   ");
            cont.append(parts[i].as_str());
            proof {
                assert(cont@ == "   "@ + all[i as int]);
                assert(!cont@.contains('\n')) by {
                    reveal_strlit("   ");
                    assert(forall|k: int| 0 <= k < cont@.len() ==> cont@[k] != '\n');
                }
                assert(lines_view(out@.push(cont)) =~= lines_view(out@).push(cont@));
                assert(lines_view(out@).push(cont@) =~= seq![dec_str(n as nat) + ". "@ + all[0]]
                    + indent_rest(rest.subrange(0, i as int)));
            }
            out.push(cont);
        } else {
            proof {
                assert(indent_rest(rest.subrange(0, i as int)) =~= indent_rest(
                    rest.subrange(0, i - 1),
                ));
            }
        }
        i = i + 1;
    }
    proof {
        assert(rest.subrange(0, parts@.len() - 1) =~= rest);
        assert(lines_view(out@) =~= block_lines(n as nat, commit_message@));
    }
    out
}

/// The bullet lines a well-formed entry's body becomes inside its commit
/// message: each non-blank body line behind a `- ` bullet, blanks dropped.
pub open spec fn bullet_lines(body: Seq<Seq<char>>) -> Seq<Seq<char>>
    decreases body.len(),
{
    if body.len() == 0 {
        Seq::empty()
    } else {
        let rest = bullet_lines(body.drop_last());
        if is_blank_line(body.last()) {
            rest
        } else {
            rest.push("- "@ + body.last())
        }
    }
}

/// The continuation lines an entry's body becomes in the today log: each
/// non-blank body line indented three spaces under the ordinal, behind its
/// bullet; blank body lines are dropped.
pub open spec fn entry_cont_lines(body: Seq<Seq<char>>) -> Seq<Seq<char>>
    decreases body.len(),
{
    if body.len() == 0 {
        Seq::empty()
    } else {
        let rest = entry_cont_lines(body.drop_last());
        if is_blank_line(body.last()) {
            rest
        } else {
            rest.push("   - "@ + body.last())
        }
    }
}

proof fn lemma_msg_lines_commit_content(title: Seq<char>, body: Seq<Seq<char>>)
    requires
        !title.contains('\n'),
        lines_ok(body),
    ensures
        msg_lines(commit_content(title, body)) == seq![title] + bullet_lines(body),
    decreases body.len(),
{
    if body.len() == 0 {
        assert(commit_content(title, body) =~= title);
        lemma_msg_lines_single(title);
        assert(seq![title] + bullet_lines(body) =~= seq![title]);
    } else {
        let b0 = body.drop_last();
        let b = body.last();
        assert(lines_ok(b0)) by {
            assert(forall|i: int| 0 <= i < b0.len() ==> b0[i] == #[trigger] body[i]);
        }
        lemma_msg_lines_commit_content(title, b0);
        if is_blank_line(b) {
            assert(commit_content(title, body) == commit_content(title, b0));
        } else {
            let bb = "- "@ + b;
            assert(!bb.contains('\n')) by {
                reveal_strlit("- ");
                assert(!body[body.len() - 1].contains('\n'));
                assert(forall|k: int| 0 <= k < bb.len() ==> bb[k] != '\n');
            }
            assert(commit_content(title, body) =~= commit_content(title, b0) + seq!['\n'] + bb);
            lemma_msg_lines_append_line(commit_content(title, b0), bb);
            assert((seq![title] + bullet_lines(b0)).push(bb) =~= seq![title] + bullet_lines(body));
        }
    }
}

proof fn lemma_indent_bullets(body: Seq<Seq<char>>)
    ensures
        indent_rest(bullet_lines(body)) == entry_cont_lines(body),
    decreases body.len(),
{
    if body.len() == 0 {
    } else {
        lemma_indent_bullets(body.drop_last());
        if is_blank_line(body.last()) {
        } else {
            let bb = "- "@ + body.last();
            assert(bullet_lines(body).drop_last() =~= bullet_lines(body.drop_last()));
            assert(bullet_lines(body).last() == bb);
            assert(!is_blank_line(bb)) by {
                reveal_strlit("- ");
                assert(bb[0] == '-');
                assert(!is_space_char('-'));
            }
            assert("   "@ + bb =~= "   - "@ + body.last()) by {
                reveal_strlit("   ");
                reveal_strlit("- ");
                reveal_strlit("   - ");
            }
            assert(indent_rest(bullet_lines(body)) =~= entry_cont_lines(body));
        }
    }
}

/// How a well-formed entry formats into an ordinal entry of the today log:
/// the ordinal and the title on the first line, then each non-blank body
/// line indented three spaces behind a `- ` bullet, blank body lines
/// dropped.
pub proof fn lemma_entry_block_lines(n: nat, title: Seq<char>, body: Seq<Seq<char>>)
    requires
        !title.contains('\n'),
        lines_ok(body),
    ensures
        block_lines(n, commit_content(title, body)) == seq![dec_str(n) + ". "@ + title]
            + entry_cont_lines(body),
{
    lemma_msg_lines_commit_content(title, body);
    lemma_indent_bullets(body);
    let all = msg_lines(commit_content(title, body));
    assert(all[0] == title);
    assert(all.drop_first() =~= bullet_lines(body));
    assert(block_lines(n, commit_content(title, body)) =~= seq![dec_str(n) + ". "@ + title]
        + entry_cont_lines(body));
}

proof fn lemma_header_not_entry(t: Seq<char>)
    ensures
        !line_marks_entry(header_line(t)),
        header_line(t).len() >= 3,
        header_line(t)[0] == '#',
{
    reveal_strlit("## ");
    let l = header_line(t);
    assert(l[0] == '#');
    assert(!line_marks_entry(l)) by {
        assert forall|k: int|
            0 <= k < l.len() && is_digit_char(l[k]) && (forall|j: int|
                0 <= j < k ==> is_space_char(l[j])) implies false by {
            if k > 0 {
                assert(is_space_char(l[0]));
            } else {
                assert(is_digit_char('#'));
            }
        }
    }
}

proof fn lemma_block_first_marks(n: nat, x: Seq<char>)
    ensures
        line_marks_entry(dec_str(n) + ". "@ + x),
        (dec_str(n) + ". "@ + x).len() >= 1,
        is_digit_char((dec_str(n) + ". "@ + x)[0]),
{
    lemma_dec_str_digits(n);
    let l = dec_str(n) + ". "@ + x;
    assert(l[0] == dec_str(n)[0]);
    assert(is_digit_char(l[0]));
    assert(line_marks_entry(l)) by {
        assert(0 <= 0 < l.len() && is_digit_char(l[0]) && (forall|j: int|
            0 <= j < 0 ==> is_space_char(l[j])));
    }
}

proof fn lemma_cont_not_entry(b: Seq<char>)
    ensures
        !line_marks_entry("   - "@ + b),
        ("   - "@ + b).len() >= 5,
        ("   - "@ + b)[0] == ' ',
{
    reveal_strlit("   - ");
    let l = "   - "@ + b;
    assert(l[0] == ' ' && l[1] == ' ' && l[2] == ' ' && l[3] == '-' && l[4] == ' ');
    assert(!line_marks_entry(l)) by {
        assert forall|k: int|
            0 <= k < l.len() && is_digit_char(l[k]) && (forall|j: int|
                0 <= j < k ==> is_space_char(l[j])) implies false by {
            if k >= 4 {
                assert(is_space_char(l[3]));
            } else {
                assert(l[k] == ' ' || l[k] == '-');
            }
        }
    }
}

/// The number of entry-marking lines in a block of lines, wherever the
/// header stands.
pub open spec fn marks_count(ls: Seq<Seq<char>>) -> nat
    decreases ls.len(),
{
    if ls.len() == 0 {
        0
    } else {
        marks_count(ls.drop_last()) + if line_marks_entry(ls.last()) {
            1nat
        } else {
            0nat
        }
    }
}

proof fn lemma_marks_count_append(a: Seq<Seq<char>>, b: Seq<Seq<char>>)
    ensures
        marks_count(a + b) == marks_count(a) + marks_count(b),
    decreases b.len(),
{
    if b.len() == 0 {
        assert(a + b =~= a);
    } else {
        assert((a + b).drop_last() =~= a + b.drop_last());
        assert((a + b).last() == b.last());
        lemma_marks_count_append(a, b.drop_last());
    }
}

/// Once the header has been seen, scanning further lines adds exactly the
/// entry-marking lines among them to the count.
pub proof fn lemma_scan_count_append(a: Seq<Seq<char>>, b: Seq<Seq<char>>, h: Seq<char>)
    requires
        scan_match(a, h),
    ensures
        scan_match(a + b, h),
        scan_count(a + b, h) == scan_count(a, h) + marks_count(b),
    decreases b.len(),
{
    assert(scan_match(a + b, h)) by {
        let i = choose|i: int| 0 <= i < a.len() && #[trigger] a[i] == h;
        assert((a + b)[i] == h);
    }
    if b.len() == 0 {
        assert(a + b =~= a);
    } else {
        assert((a + b).drop_last() =~= a + b.drop_last());
        assert((a + b).last() == b.last());
        lemma_scan_count_append(a, b.drop_last(), h);
    }
}

/// The ordinal entry a well-formed entry becomes, under the given number.
pub open spec fn entry_block_of(n: nat, e: Entry) -> Seq<Seq<char>> {
    block_lines(n, commit_content(e.title@, lines_view(e.body@)))
}

/// The entry blocks of a day's entries, numbered one upward in call order.
pub open spec fn entry_blocks(es: Seq<Entry>) -> Seq<Seq<char>>
    decreases es.len(),
{
    if es.len() == 0 {
        Seq::empty()
    } else {
        entry_blocks(es.drop_last()) + entry_block_of(es.len(), es.last())
    }
}

/// The today log of a day with the given date and entries: the date header,
/// a blank line, and the entries' blocks numbered one upward in call order.
pub open spec fn entry_log_lines(today: Seq<char>, es: Seq<Entry>) -> Seq<Seq<char>> {
    seq![header_line(today), Seq::<char>::empty()] + entry_blocks(es)
}

/// Every entry is well-formed.
pub open spec fn wf_entries(es: Seq<Entry>) -> bool {
    forall|i: int| 0 <= i < es.len() ==> (#[trigger] es[i]).wf()
}

proof fn lemma_entry_body_ok(e: Entry)
    requires
        e.wf(),
    ensures
        lines_ok(lines_view(e.body@)),
        !e.title@.contains('\n'),
{
    assert(forall|i: int|
        0 <= i < e.body@.len() ==> #[trigger] lines_view(e.body@)[i] == e.body@[i]@);
}

proof fn lemma_marks_count_cont(body: Seq<Seq<char>>)
    ensures
        marks_count(entry_cont_lines(body)) == 0,
    decreases body.len(),
{
    if body.len() == 0 {
    } else {
        lemma_marks_count_cont(body.drop_last());
        if !is_blank_line(body.last()) {
            let prev = entry_cont_lines(body.drop_last());
            assert(entry_cont_lines(body).drop_last() =~= prev);
            lemma_cont_not_entry(body.last());
        }
    }
}

proof fn lemma_marks_count_block(n: nat, e: Entry)
    requires
        e.wf(),
    ensures
        marks_count(entry_block_of(n, e)) == 1,
{
    lemma_entry_body_ok(e);
    lemma_entry_block_lines(n, e.title@, lines_view(e.body@));
    let first = seq![dec_str(n) + ". "@ + e.title@];
    lemma_marks_count_append(first, entry_cont_lines(lines_view(e.body@)));
    lemma_marks_count_cont(lines_view(e.body@));
    lemma_block_first_marks(n, e.title@);
    assert(marks_count(first) == 1) by {
        assert(first.drop_last() =~= Seq::<Seq<char>>::empty());
        assert(marks_count(Seq::<Seq<char>>::empty()) == 0);
        assert(first.last() == dec_str(n) + ". "@ + e.title@);
        assert(line_marks_entry(first.last()));
    }
}

/// Scanning the today log of a day with the given date and entries finds the
/// header and counts exactly those entries: the day's entries are numbered
/// one up to their number, in call order, and nothing else counts as one.
pub proof fn lemma_scan_entry_log(today: Seq<char>, es: Seq<Entry>)
    requires
        wf_entries(es),
    ensures
        scan_match(entry_log_lines(today, es), header_line(today)),
        scan_count(entry_log_lines(today, es), header_line(today)) == es.len(),
    decreases es.len(),
{
    let h = header_line(today);
    let head = seq![h, Seq::<char>::empty()];
    assert(scan_match(entry_log_lines(today, es), h)) by {
        assert(entry_log_lines(today, es)[0] == h);
    }
    assert(scan_count(head, h) == 0) by {
        lemma_header_not_entry(today);
        assert(seq![h].drop_last() =~= Seq::<Seq<char>>::empty());
        assert(seq![h].last() == h);
        assert(scan_count(Seq::<Seq<char>>::empty(), h) == 0);
        assert(!line_marks_entry(h));
        assert(scan_count(seq![h], h) == 0);
        assert(head.drop_last() =~= seq![h]);
        assert(head.last() =~= Seq::<char>::empty());
        assert(!line_marks_entry(head.last()));
    }
    if es.len() == 0 {
        assert(entry_log_lines(today, es) =~= head);
    } else {
        assert(wf_entries(es.drop_last())) by {
            assert(forall|i: int|
                0 <= i < es.len() - 1 ==> es.drop_last()[i] == #[trigger] es[i]);
        }
        lemma_scan_entry_log(today, es.drop_last());
        assert(entry_log_lines(today, es) =~= entry_log_lines(today, es.drop_last())
            + entry_block_of(es.len(), es.last()));
        lemma_scan_count_append(
            entry_log_lines(today, es.drop_last()),
            entry_block_of(es.len(), es.last()),
            h,
        );
        assert(es[es.len() - 1].wf());
        lemma_marks_count_block(es.len() as nat, es.last());
    }
}

proof fn lemma_cont_lines_shape(body: Seq<Seq<char>>)
    ensures
        forall|j: int|
            0 <= j < entry_cont_lines(body).len() ==> (#[trigger] entry_cont_lines(body)[j]).len()
                >= 5 && entry_cont_lines(body)[j][0] == ' ',
    decreases body.len(),
{
    if body.len() == 0 {
    } else {
        lemma_cont_lines_shape(body.drop_last());
        if !is_blank_line(body.last()) {
            lemma_cont_not_entry(body.last());
            assert(entry_cont_lines(body).drop_last() =~= entry_cont_lines(body.drop_last()));
            assert(entry_cont_lines(body).last() == "   - "@ + body.last());
        }
    }
}

proof fn lemma_blocks_not_header(es: Seq<Entry>, h2: Seq<char>)
    requires
        wf_entries(es),
        h2.len() >= 1,
        h2[0] == '#',
    ensures
        forall|i: int| 0 <= i < entry_blocks(es).len() ==> #[trigger] entry_blocks(es)[i] != h2,
    decreases es.len(),
{
    if es.len() > 0 {
        assert(wf_entries(es.drop_last())) by {
            assert(forall|i: int|
                0 <= i < es.len() - 1 ==> es.drop_last()[i] == #[trigger] es[i]);
        }
        lemma_blocks_not_header(es.drop_last(), h2);
        let e = es.last();
        assert(e.wf());
        lemma_entry_body_ok(e);
        lemma_entry_block_lines(es.len() as nat, e.title@, lines_view(e.body@));
        lemma_block_first_marks(es.len() as nat, e.title@);
        lemma_cont_lines_shape(lines_view(e.body@));
        let block = entry_block_of(es.len() as nat, e);
        assert(forall|j: int| 0 <= j < block.len() ==> #[trigger] block[j] != h2) by {
            assert(is_digit_char(block[0][0]));
            assert(!is_digit_char('#'));
            assert(forall|j: int|
                1 <= j < block.len() ==> #[trigger] block[j] == entry_cont_lines(
                    lines_view(e.body@),
                )[j - 1]);
        }
        assert(forall|i: int|
            0 <= i < entry_blocks(es).len() ==> #[trigger] entry_blocks(es)[i] != h2) by {
            assert(forall|i: int|
                0 <= i < entry_blocks(es.drop_last()).len() ==> entry_blocks(es)[i]
                    == #[trigger] entry_blocks(es.drop_last())[i]);
            assert(forall|i: int|
                entry_blocks(es.drop_last()).len() <= i < entry_blocks(es).len()
                    ==> entry_blocks(es)[i] == #[trigger] block[i - entry_blocks(
                    es.drop_last(),
                ).len()]);
        }
    }
}

/// A today log written for one date never carries the header of another:
/// recording under a different date is a rollover.
pub proof fn lemma_no_match_other_date(t1: Seq<char>, es: Seq<Entry>, t2: Seq<char>)
    requires
        wf_entries(es),
        t1 != t2,
    ensures
        !scan_match(entry_log_lines(t1, es), header_line(t2)),
{
    reveal_strlit("## ");
    let h2 = header_line(t2);
    let ell = entry_log_lines(t1, es);
    assert(h2[0] == '#');
    assert(header_line(t1) != h2) by {
        if header_line(t1) == h2 {
            assert(("## "@ + t1) == ("## "@ + t2));
            assert(("## "@ + t1).len() == ("## "@ + t2).len());
            assert(t1.len() == t2.len());
            assert forall|k: int| 0 <= k < t1.len() implies t1[k] == t2[k] by {
                assert(header_line(t1)[k + 3] == t1[k]);
                assert(h2[k + 3] == t2[k]);
            }
            assert(t1 =~= t2);
        }
    }
    lemma_blocks_not_header(es, h2);
    assert(!scan_match(ell, h2)) by {
        assert forall|i: int| 0 <= i < ell.len() implies #[trigger] ell[i] != h2 by {
            if i == 0 {
                assert(ell[0] == header_line(t1));
            } else if i == 1 {
                assert(ell[1].len() == 0 && h2.len() >= 3);
            } else {
                assert(ell[i] == entry_blocks(es)[i - 2]);
            }
        }
    }
}

/// On a fresh day (no today log yet), recording a single-line message yields
/// exactly the date header, a blank line, and the message as entry number
/// one; the cumulative log is only made to exist.
pub proof fn lemma_record_fresh_single_line(
    cum: Option<Seq<Seq<char>>>,
    m: Seq<char>,
    today: Seq<char>,
)
    requires
        !m.contains('\n'),
    ensures
        record_cumulative(cum, Option::None, today) == ensured_cumulative(cum),
        record_today(Option::None, m, today) == fresh_log_lines(today, m),
        text_of(fresh_log_lines(today, m)) == "## "@ + today + "\n\n1. "@ + m + "\n"@,
{
    lemma_msg_lines_single(m);
    assert(msg_lines(m).drop_first() =~= Seq::<Seq<char>>::empty());
    assert(dec_str(1) =~= seq!['1']);
    let entry = dec_str(1) + ". "@ + m;
    let fresh = fresh_log_lines(today, m);
    assert(fresh =~= seq![header_line(today), Seq::<char>::empty(), entry]);
    assert(text_of(fresh) == "## "@ + today + "\n\n1. "@ + m + "\n"@) by {
        reveal_strlit("## ");
        reveal_strlit("\n\n1. ");
        reveal_strlit(". ");
        reveal_strlit("\n");
        let l0 = seq![header_line(today)];
        let head = seq![header_line(today), Seq::<char>::empty()];
        assert(l0.drop_last() =~= Seq::<Seq<char>>::empty());
        assert(text_of(Seq::<Seq<char>>::empty()) == Seq::<char>::empty());
        assert(text_of(l0) =~= header_line(today) + seq!['\n']);
        assert(head.drop_last() =~= l0);
        assert(head.last() =~= Seq::<char>::empty());
        assert(text_of(head) =~= header_line(today) + seq!['\n'] + seq!['\n']);
        assert(fresh.drop_last() =~= head);
        assert(fresh.last() == entry);
        assert(text_of(fresh) =~= "## "@ + today + "\n\n1. "@ + m + "\n"@);
    }
}

/// While the today log's header still names today, recording appends exactly
/// the next ordinal entry: a day that held entries one to N now holds the
/// same entries and the new one as entry N + 1, and the cumulative log is
/// only made to exist.
pub proof fn lemma_record_same_day(
    cum: Option<Seq<Seq<char>>>,
    es: Seq<Entry>,
    e: Entry,
    today: Seq<char>,
)
    requires
        wf_entries(es),
    ensures
        record_cumulative(cum, Option::Some(entry_log_lines(today, es)), today)
            == ensured_cumulative(cum),
        record_today(
            Option::Some(entry_log_lines(today, es)),
            commit_content(e.title@, lines_view(e.body@)),
            today,
        ) == entry_log_lines(today, es.push(e)),
{
    lemma_scan_entry_log(today, es);
    assert(es.push(e).drop_last() =~= es);
    assert(es.push(e).last() == e);
    assert(entry_log_lines(today, es) + entry_block_of((es.len() + 1) as nat, e)
        =~= entry_log_lines(today, es.push(e)));
}

/// The first record of a day with no today log yields the day's log with the
/// entry as number one.
pub proof fn lemma_record_first_of_day(e: Entry, today: Seq<char>)
    ensures
        record_today(
            Option::None,
            commit_content(e.title@, lines_view(e.body@)),
            today,
        ) == entry_log_lines(today, seq![e]),
{
    assert(seq![e].drop_last() =~= Seq::<Entry>::empty());
    assert(seq![e].last() == e);
    assert(entry_blocks(Seq::<Entry>::empty()) =~= Seq::<Seq<char>>::empty());
    assert(entry_blocks(seq![e]) =~= entry_block_of(1, e));
    assert(fresh_log_lines(today, commit_content(e.title@, lines_view(e.body@)))
        =~= entry_log_lines(today, seq![e]));
}

/// The today log after a sequence of entries is recorded on one day,
/// starting with no today log.
pub open spec fn today_log_after(es: Seq<Entry>, today: Seq<char>) -> Option<Seq<Seq<char>>>
    decreases es.len(),
{
    if es.len() == 0 {
        Option::None
    } else {
        Option::Some(
            record_today(
                today_log_after(es.drop_last(), today),
                commit_content(es.last().title@, lines_view(es.last().body@)),
                today,
            ),
        )
    }
}

/// Any number of records on the same day, starting with no today log, leave
/// exactly the day's log: the header, a blank line, and the entries numbered
/// one upward in call order.
pub proof fn lemma_same_day_sequence(es: Seq<Entry>, today: Seq<char>)
    requires
        wf_entries(es),
        es.len() >= 1,
    ensures
        today_log_after(es, today) == Option::Some(entry_log_lines(today, es)),
    decreases es.len(),
{
    if es.len() == 1 {
        lemma_record_first_of_day(es.last(), today);
        assert(seq![es.last()] =~= es);
    } else {
        assert(wf_entries(es.drop_last())) by {
            assert(forall|i: int|
                0 <= i < es.len() - 1 ==> es.drop_last()[i] == #[trigger] es[i]);
        }
        lemma_same_day_sequence(es.drop_last(), today);
        lemma_record_same_day(Option::None, es.drop_last(), es.last(), today);
        assert(es.drop_last().push(es.last()) =~= es);
    }
}

/// Recording under a new date rolls the finished day over: the old today log
/// is appended verbatim to the cumulative log after one blank line, and the
/// today log is replaced by a fresh log for the new date holding only the
/// new message.
pub proof fn lemma_record_rollover(
    cum: Option<Seq<Seq<char>>>,
    es: Seq<Entry>,
    d1: Seq<char>,
    d2: Seq<char>,
    m: Seq<char>,
)
    requires
        wf_entries(es),
        d1 != d2,
    ensures
        record_cumulative(cum, Option::Some(entry_log_lines(d1, es)), d2) == ensured_cumulative(
            cum,
        ) + seq![Seq::<char>::empty()] + entry_log_lines(d1, es),
        record_today(Option::Some(entry_log_lines(d1, es)), m, d2) == fresh_log_lines(d2, m),
        text_of(record_cumulative(cum, Option::Some(entry_log_lines(d1, es)), d2)) == text_of(
            ensured_cumulative(cum),
        ) + "\n"@ + text_of(entry_log_lines(d1, es)),
{
    lemma_no_match_other_date(d1, es, d2);
    let base = ensured_cumulative(cum);
    let old_log = entry_log_lines(d1, es);
    crate::text::lemma_text_of_append(base + seq![Seq::<char>::empty()], old_log);
    crate::text::lemma_text_of_append(base, seq![Seq::<char>::empty()]);
    assert(text_of(seq![Seq::<char>::empty()]) == "\n"@) by {
        reveal_strlit("\n");
        assert(seq![Seq::<char>::empty()].drop_last() =~= Seq::<Seq<char>>::empty());
        assert(text_of(Seq::<Seq<char>>::empty()) == Seq::<char>::empty());
        assert(seq![Seq::<char>::empty()].last() =~= Seq::<char>::empty());
        assert(text_of(seq![Seq::<char>::empty()]) =~= "\n"@);
    }
    assert(text_of(base) + text_of(seq![Seq::<char>::empty()]) + text_of(old_log) == text_of(base)
        + "\n"@ + text_of(old_log));
}

/// Making the cumulative log exist is idempotent: done to a log that already
/// exists, it changes nothing, however the log came to exist.
pub proof fn lemma_ensure_cumulative_idempotent(c: Option<Seq<Seq<char>>>)
    ensures
        ensured_cumulative(Option::Some(ensured_cumulative(c))) == ensured_cumulative(c),
{
}

} // verus!
