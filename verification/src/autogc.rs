//! The log of removed sibling directories: one line per removal, the newest last, a fixed number
//! of lines.

use vstd::prelude::*;

use crate::text;

verus! {

broadcast use vstd::string::group_string_axioms;

/// The name of the log file.
pub const AUTOGC_LOG_NAME: &'static str = "autogc_log";

/// How many removals the log keeps.
pub const AUTOGC_LOG_MAX: usize = 16;

/// A line without the carriage return before its line feed.
pub open spec fn without_return(line: Seq<char>) -> Seq<char> {
    if line.len() > 0 && line.last() == '\r' {
        line.drop_last()
    } else {
        line
    }
}

/// The lines of a text that are not empty.
pub open spec fn lines_of(s: Seq<char>) -> Seq<Seq<char>>
    decreases s.len(),
{
    if s.len() == 0 {
        Seq::empty()
    } else if s.contains('\n') {
        let i = choose|i: int| text::first_at(s, '\n', i);
        let line = without_return(s.take(i));
        let rest = if 0 <= i < s.len() {
            lines_of(s.skip(i + 1))
        } else {
            Seq::empty()
        };
        if line.len() > 0 {
            seq![line] + rest
        } else {
            rest
        }
    } else {
        seq![s]
    }
}

/// The characters of a list of strings.
pub open spec fn texts(v: Seq<String>) -> Seq<Seq<char>> {
    Seq::new(v.len(), |i: int| v[i]@)
}

/// The last entries of a list.
pub open spec fn newest(lines: Seq<Seq<char>>, max: nat) -> Seq<Seq<char>> {
    if lines.len() <= max {
        lines
    } else {
        lines.skip(lines.len() - max)
    }
}

/// Lines one after the other, each with its line feed.
pub open spec fn text_of(lines: Seq<Seq<char>>) -> Seq<char>
    decreases lines.len(),
{
    if lines.len() == 0 {
        Seq::empty()
    } else {
        text_of(lines.drop_last()) + lines.last() + seq!['\n']
    }
}

/// One log line.
pub open spec fn entry(secs: u64, removed: Seq<char>) -> Seq<char> {
    text::digits(secs as nat, 10) + " "@ + removed
}

/// What a log line says, if it has a time before its first space.
pub open spec fn entry_of(line: Seq<char>) -> Option<(nat, Seq<char>)> {
    if line.contains(' ') {
        let i = choose|i: int| text::first_at(line, ' ', i);
        match text::unsigned_value(line.take(i), 10, 0xFFFF_FFFF_FFFF_FFFF) {
            Some(ts) => Some((ts, line.skip(i + 1))),
            None => None,
        }
    } else {
        None
    }
}

/// What the readable lines say, in order.
pub open spec fn entries_of(lines: Seq<Seq<char>>) -> Seq<(nat, Seq<char>)>
    decreases lines.len(),
{
    if lines.len() == 0 {
        Seq::empty()
    } else {
        let rest = entries_of(lines.drop_last());
        match entry_of(lines.last()) {
            Some(e) => rest.push(e),
            None => rest,
        }
    }
}

/// The contents of a log file, nothing if there is none.
pub open spec fn contents_of(contents: Option<&str>) -> Seq<char> {
    match contents {
        Some(s) => s@,
        None => Seq::empty(),
    }
}

/// The lines of a log file that are not empty.
pub fn read_autogc_log_lines(contents: Option<&str>) -> (lines: Vec<String>)
    ensures
        texts(lines@) == lines_of(contents_of(contents)),
{
    let s: &str = match contents {
        Some(s) => s,
        None => "",
    };
    proof {
        reveal_strlit("");
        assert(s@ =~= contents_of(contents));
    }
    let v = text::chars_of(s);
    let mut lines: Vec<String> = Vec::new();
    let mut start: usize = 0;
    assert(v@.skip(0) =~= v@);
    assert(texts(lines@) + lines_of(v@) =~= lines_of(v@));
    while start < v.len()
        invariant
            start <= v@.len(),
            texts(lines@) + lines_of(v@.skip(start as int)) == lines_of(v@),
        decreases v@.len() - start,
    {
        let ghost rest = v@.skip(start as int);
        let mut i: usize = start;
        while i < v.len() && v[i] != '\n'
            invariant
                start <= i <= v@.len(),
                forall|j: int| start <= j < i ==> v@[j] != '\n',
            decreases v@.len() - i,
        {
            i += 1;
        }
        let ghost before = texts(lines@);
        if i < v.len() {
            proof {
                assert(rest[i - start] == '\n');
                assert(text::first_at(rest, '\n', i - start));
                text::first_is_unique(rest, '\n', i - start);
                assert(rest.take(i - start) =~= v@.subrange(start as int, i as int));
                assert(rest.skip(i - start + 1) =~= v@.skip(i + 1));
            }
            let mut end: usize = i;
            if end > start && v[end - 1] == '\r' {
                end -= 1;
                assert(v@.subrange(start as int, i as int).drop_last() =~= v@.subrange(
                    start as int,
                    end as int,
                ));
            }
            let line = text::cut(&v, start, end);
            assert(line@ == without_return(rest.take(i - start)));
            if line.len() > 0 {
                lines.push(text::string_of(&line));
                proof {
                    assert(texts(lines@) =~= before.push(line@));
                    assert(before + (seq![line@] + lines_of(v@.skip(i + 1))) =~= texts(lines@) + lines_of(
                        v@.skip(i + 1),
                    ));
                }
            }
            start = i + 1;
        } else {
            let line = text::cut(&v, start, i);
            proof {
                assert(line@ =~= rest);
                assert(!rest.contains('\n')) by {
                    if rest.contains('\n') {
                        let k = choose|k: int| 0 <= k < rest.len() && rest[k] == '\n';
                        assert(v@[start + k] == '\n');
                    }
                }
            }
            lines.push(text::string_of(&line));
            proof {
                assert(texts(lines@) =~= before.push(line@));
                assert(v@.skip(i as int) =~= Seq::<char>::empty());
                assert(before + seq![rest] =~= texts(lines@) + lines_of(v@.skip(i as int)));
            }
            start = i;
        }
    }
    proof {
        assert(v@.skip(start as int) =~= Seq::<char>::empty());
        assert(texts(lines@) + Seq::<Seq<char>>::empty() =~= texts(lines@));
    }
    lines
}

/// The contents of the log file after a removal: the old lines and the new one, the oldest
/// dropped where there are too many.
pub fn record_autogc_removal(contents: Option<&str>, secs: u64, removed: &str) -> (body: String)
    ensures
        body@ == text_of(
            newest(
                lines_of(contents_of(contents)).push(entry(secs, removed@)),
                AUTOGC_LOG_MAX as nat,
            ),
        ),
{
    let mut lines = read_autogc_log_lines(contents);
    let ghost old_lines = lines_of(contents_of(contents));
    let mut line = text::number(secs, 10);
    line.append(" ");
    line.append(removed);
    lines.push(line);
    let ghost all = old_lines.push(entry(secs, removed@));
    assert(texts(lines@) =~= all);
    let first: usize = if lines.len() > AUTOGC_LOG_MAX {
        lines.len() - AUTOGC_LOG_MAX
    } else {
        0
    };
    let ghost kept = newest(all, AUTOGC_LOG_MAX as nat);
    assert(kept =~= all.skip(first as int));
    let mut body = String::new();
    let mut i: usize = first;
    assert(kept.take(0) =~= Seq::<Seq<char>>::empty());
    while i < lines.len()
        invariant
            first <= i <= lines@.len(),
            kept == all.skip(first as int),
            texts(lines@) == all,
            body@ == text_of(kept.take(i - first)),
        decreases lines@.len() - i,
    {
        proof {
            let k = i - first;
            assert(kept.take(k + 1).drop_last() =~= kept.take(k));
            assert(kept.take(k + 1).last() == all[i as int]);
            assert(all[i as int] == lines@[i as int]@);
        }
        let ghost before = body@;
        body.append(lines[i].as_str());
        body.push('\n');
        assert(body@ =~= before + lines@[i as int]@ + seq!['\n']);
        i += 1;
    }
    assert(kept.take(i - first) =~= kept);
    body
}

/// The removals that a log file tells of, oldest first; lines that cannot be read are skipped.
pub fn read_autogc_log(contents: Option<&str>) -> (entries: Vec<(u64, String)>)
    ensures
        entries@.len() == entries_of(lines_of(contents_of(contents))).len(),
        forall|i: int|
            0 <= i < entries@.len() ==> {
                let e = entries_of(lines_of(contents_of(contents)))[i];
                (#[trigger] entries@[i]).0 == e.0 && entries@[i].1@ == e.1
            },
{
    let lines = read_autogc_log_lines(contents);
    let ghost all = lines_of(contents_of(contents));
    let mut entries: Vec<(u64, String)> = Vec::new();
    let mut i: usize = 0;
    assert(all.take(0) =~= Seq::<Seq<char>>::empty());
    while i < lines.len()
        invariant
            i <= lines@.len(),
            texts(lines@) == all,
            entries@.len() == entries_of(all.take(i as int)).len(),
            forall|k: int|
                0 <= k < entries@.len() ==> {
                    let e = entries_of(all.take(i as int))[k];
                    (#[trigger] entries@[k]).0 == e.0 && entries@[k].1@ == e.1
                },
        decreases lines@.len() - i,
    {
        let v = text::chars_of(lines[i].as_str());
        proof {
            assert(all[i as int] == lines@[i as int]@);
            assert(all.take(i + 1).drop_last() =~= all.take(i as int));
            assert(all.take(i + 1).last() == v@);
        }
        let ghost before = entries@;
        let ghost known = entries_of(all.take(i as int));
        if let Some(space) = text::find(&v, ' ') {
            proof {
                text::first_is_unique(v@, ' ', space as int);
            }
            let head = text::cut(&v, 0, space);
            assert(head@ =~= v@.take(space as int));
            if let Some(ts) = text::parse_unsigned(&head, 10, u64::MAX) {
                let end: usize = v.len();
                let tail = text::cut(&v, space + 1, end);
                assert(tail@ =~= v@.skip(space + 1));
                entries.push((ts, text::string_of(&tail)));
                proof {
                    assert(entries_of(all.take(i + 1)) == known.push((ts as nat, tail@)));
                    assert forall|k: int| 0 <= k < entries@.len() implies ({
                        let e = entries_of(all.take(i + 1))[k];
                        (#[trigger] entries@[k]).0 == e.0 && entries@[k].1@ == e.1
                    }) by {
                        if k < before.len() {
                            assert(entries@[k] == before[k]);
                        }
                    }
                }
            }
        }
        i += 1;
    }
    assert(all.take(i as int) =~= all);
    entries
}

// ---------------------------------------------------------------------------------------------
// Laws
// ---------------------------------------------------------------------------------------------

/// Whether a line survives being written and read: it is not empty, holds no line feed and does
/// not end in a carriage return.
pub open spec fn plain(line: Seq<char>) -> bool {
    line.len() > 0 && !line.contains('\n') && line.last() != '\r'
}

proof fn first_line(line: Seq<char>, rest: Seq<char>)
    requires
        plain(line),
    ensures
        lines_of(line + seq!['\n'] + rest) == seq![line] + lines_of(rest),
{
    let s = line + seq!['\n'] + rest;
    assert(s[line.len() as int] == '\n');
    assert(text::first_at(s, '\n', line.len() as int)) by {
        assert forall|j: int| 0 <= j < line.len() implies s[j] != '\n' by {
            assert(s[j] == line[j]);
            assert(line.contains(line[j]));
        }
    }
    text::first_is_unique(s, '\n', line.len() as int);
    assert(s.take(line.len() as int) =~= line);
    assert(s.skip(line.len() as int + 1) =~= rest);
}

proof fn lines_in_front(lines: Seq<Seq<char>>, rest: Seq<char>)
    requires
        forall|i: int| 0 <= i < lines.len() ==> plain(#[trigger] lines[i]),
    ensures
        lines_of(text_of(lines) + rest) == lines + lines_of(rest),
    decreases lines.len(),
{
    if lines.len() == 0 {
        assert(text_of(lines) + rest =~= rest);
        assert(lines + lines_of(rest) =~= lines_of(rest));
    } else {
        let front = lines.drop_last();
        let line = lines.last();
        assert(plain(lines[lines.len() - 1]));
        assert forall|i: int| 0 <= i < front.len() implies plain(#[trigger] front[i]) by {
            assert(front[i] == lines[i]);
        }
        let tail = line + seq!['\n'] + rest;
        assert(text_of(lines) + rest =~= text_of(front) + tail);
        lines_in_front(front, tail);
        first_line(line, rest);
        assert(front + (seq![line] + lines_of(rest)) =~= lines + lines_of(rest));
    }
}

/// The log that was written is read back line by line.
pub proof fn law_log_reads_back(lines: Seq<Seq<char>>)
    requires
        forall|i: int| 0 <= i < lines.len() ==> plain(#[trigger] lines[i]),
    ensures
        lines_of(text_of(lines)) == lines,
{
    lines_in_front(lines, Seq::empty());
    assert(text_of(lines) + Seq::<char>::empty() =~= text_of(lines));
    assert(lines + lines_of(Seq::empty()) =~= lines);
}

/// A removal that was recorded is the newest one that is read back, and the log never has more
/// lines than its limit.
pub proof fn law_recorded_removal_is_newest(old_lines: Seq<Seq<char>>, secs: u64, removed: Seq<char>)
    requires
        forall|i: int| 0 <= i < old_lines.len() ==> plain(#[trigger] old_lines[i]),
        !removed.contains('\n'),
        removed.len() > 0 ==> removed.last() != '\r',
    ensures
        ({
            let body = text_of(newest(old_lines.push(entry(secs, removed)), AUTOGC_LOG_MAX as nat));
            let lines = lines_of(body);
            &&& 0 < lines.len() <= AUTOGC_LOG_MAX
            &&& entry_of(lines.last()) == Some((secs as nat, removed))
            &&& entries_of(lines).last() == (secs as nat, removed)
        }),
{
    let e = entry(secs, removed);
    let all = old_lines.push(e);
    let kept = newest(all, AUTOGC_LOG_MAX as nat);
    reveal_strlit(" ");
    text::law_digits_read_back(secs as nat, 10);
    text::law_unsigned_round_trip(secs as nat, 10, 0xFFFF_FFFF_FFFF_FFFF);
    let d = text::digits(secs as nat, 10);
    assert(e[d.len() as int] == ' ');
    assert(plain(e)) by {
        if e.contains('\n') {
            let k = choose|k: int| 0 <= k < e.len() && e[k] == '\n';
            if k < d.len() {
                assert(text::is_digit(d[k], 10));
            } else if k > d.len() {
                assert(removed[k - d.len() - 1] == '\n');
            }
        }
        if removed.len() > 0 {
            assert(e.last() == removed.last());
        } else {
            assert(e.last() == ' ');
        }
    }
    assert forall|i: int| 0 <= i < kept.len() implies plain(#[trigger] kept[i]) by {
        let shift = all.len() - kept.len();
        assert(kept[i] == all[i + shift]);
        if i + shift < old_lines.len() {
            assert(plain(old_lines[i + shift]));
        }
    }
    law_log_reads_back(kept);
    assert(kept.last() == e);
    assert(text::first_at(e, ' ', d.len() as int)) by {
        assert forall|j: int| 0 <= j < d.len() implies e[j] != ' ' by {
            assert(e[j] == d[j]);
            assert(text::is_digit(d[j], 10));
        }
    }
    text::first_is_unique(e, ' ', d.len() as int);
    assert(e.take(d.len() as int) =~= d);
    assert(e.skip(d.len() as int + 1) =~= removed);
}

/// Of the lines of a log the latest are kept, in order: sixteen, or all of them if there are fewer.
pub proof fn law_latest_lines_are_kept(lines: Seq<Seq<char>>, i: int)
    ensures
        ({
            let kept = newest(lines, AUTOGC_LOG_MAX as nat);
            let dropped = lines.len() - kept.len();
            &&& kept.len() == (if lines.len() < 16 {
                lines.len()
            } else {
                16
            })
            &&& 0 <= i < kept.len() ==> kept[i] == lines[i + dropped]
        }),
{
}

/// A line of the log is the time in seconds, a blank and the directory, and what it says is read
/// back, whatever the directory is called.
pub proof fn law_entry_reads_back(secs: u64, removed: Seq<char>)
    ensures
        entry(secs, removed) == text::digits(secs as nat, 10) + seq![' '] + removed,
        entry_of(entry(secs, removed)) == Some((secs as nat, removed)),
{
    let e = entry(secs, removed);
    let d = text::digits(secs as nat, 10);
    reveal_strlit(" ");
    assert(" "@ =~= seq![' ']);
    text::law_digits_read_back(secs as nat, 10);
    text::law_unsigned_round_trip(secs as nat, 10, 0xFFFF_FFFF_FFFF_FFFF);
    assert(e[d.len() as int] == ' ');
    assert(text::first_at(e, ' ', d.len() as int)) by {
        assert forall|j: int| 0 <= j < d.len() implies e[j] != ' ' by {
            assert(e[j] == d[j]);
            assert(text::is_digit(d[j], 10));
        }
    }
    text::first_is_unique(e, ' ', d.len() as int);
    assert(e.take(d.len() as int) =~= d);
    assert(e.skip(d.len() as int + 1) =~= removed);
}

/// Every line of a text counts, the last one even without a line feed; empty lines do not, and a
/// carriage return before a line feed belongs to it.
pub proof fn law_lines_of_a_text(line: Seq<char>, rest: Seq<char>)
    requires
        plain(line),
    ensures
        lines_of(line + seq!['\n'] + rest) == seq![line] + lines_of(rest),
        lines_of(line + seq!['\r', '\n'] + rest) == seq![line] + lines_of(rest),
        lines_of(seq!['\n'] + rest) == lines_of(rest),
        lines_of(line) == seq![line],
        lines_of(Seq::empty()) == Seq::<Seq<char>>::empty(),
{
    first_line(line, rest);
    let s = line + seq!['\r', '\n'] + rest;
    let n = line.len() as int;
    assert(s[n] == '\r' && s[n + 1] == '\n');
    assert(text::first_at(s, '\n', n + 1)) by {
        assert forall|j: int| 0 <= j < n + 1 implies s[j] != '\n' by {
            if j < n {
                assert(s[j] == line[j]);
                assert(line.contains(line[j]));
            }
        }
    }
    text::first_is_unique(s, '\n', n + 1);
    assert(s.take(n + 1) =~= line.push('\r'));
    assert(line.push('\r').drop_last() =~= line);
    assert(s.skip(n + 2) =~= rest);
    let t = seq!['\n'] + rest;
    assert(text::first_at(t, '\n', 0));
    text::first_is_unique(t, '\n', 0);
    assert(t.take(0) =~= Seq::<char>::empty());
    assert(t.skip(1) =~= rest);
}

} // verus!
