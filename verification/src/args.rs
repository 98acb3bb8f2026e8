//! The command lines of the client programs.

use vstd::prelude::*;

use crate::autogc;
use crate::autogc::read_autogc_log_lines;
use crate::text;

verus! {

broadcast use vstd::string::group_string_axioms;

/// Why a command line is refused.
#[derive(Clone, Copy, Debug, PartialEq, Eq, Structural)]
pub enum ArgError {
    /// There are no arguments, or too few.
    Usage,
    /// There is nothing to run, or nothing to wait for.
    Missing,
    /// An option lacks its value, or the value is no number.
    NeedsValue,
    /// An argument is not known; its place.
    Unknown(usize),
    /// A number is too large.
    TooDeep,
    /// Help was asked for.
    Help,
}

/// The characters of a list of strings.
pub open spec fn words(v: Seq<String>) -> Seq<Seq<char>> {
    autogc::texts(v)
}

fn is_word(s: &String, w: &str) -> (r: bool)
    ensures
        r == (s@ == w@),
{
    let v = text::chars_of(s.as_str());
    text::equals(&v, w)
}

fn has_prefix(s: &String, p: &str) -> (r: bool)
    ensures
        r == text::begins_with(s@, p@),
{
    let v = text::chars_of(s.as_str());
    text::strip_prefix(&v, p).is_some()
}

proof fn words_push(v: Seq<String>, s: String)
    ensures
        words(v.push(s)) == words(v).push(s@),
{
    assert(words(v.push(s)) =~= words(v).push(s@));
}

/// The strings from place `a` up to place `b`.
fn copy_words(v: &Vec<String>, a: usize, b: usize) -> (r: Vec<String>)
    requires
        a <= b <= v@.len(),
    ensures
        words(r@) == words(v@).subrange(a as int, b as int),
{
    let mut r: Vec<String> = Vec::new();
    let mut i: usize = a;
    assert(words(r@) =~= words(v@).subrange(a as int, a as int));
    while i < b
        invariant
            a <= i <= b <= v@.len(),
            words(r@) == words(v@).subrange(a as int, i as int),
        decreases b - i,
    {
        let s: String = v[i].clone();
        proof {
            words_push(r@, s);
            assert(words(v@).subrange(a as int, i + 1) =~= words(v@).subrange(a as int, i as int).push(
                v@[i as int]@,
            ));
        }
        r.push(s);
        i += 1;
    }
    r
}

/// Words with a separator between them.
pub open spec fn joined(w: Seq<Seq<char>>, sep: Seq<char>) -> Seq<char>
    decreases w.len(),
{
    if w.len() == 0 {
        Seq::empty()
    } else if w.len() == 1 {
        w[0]
    } else {
        joined(w.drop_last(), sep) + sep + w.last()
    }
}

/// Joins words with a separator between them.
pub fn join(v: &Vec<String>, sep: &str) -> (s: String)
    ensures
        s@ == joined(words(v@), sep@),
{
    let mut s: String = String::new();
    let mut i: usize = 0;
    let ghost w = words(v@);
    assert(w.take(0) =~= Seq::<Seq<char>>::empty());
    while i < v.len()
        invariant
            i <= v@.len(),
            w == words(v@),
            s@ == joined(w.take(i as int), sep@),
        decreases v@.len() - i,
    {
        proof {
            let t = w.take(i + 1);
            assert(t.drop_last() =~= w.take(i as int));
            assert(t.last() == v@[i as int]@);
        }
        if i > 0 {
            s.append(sep);
        }
        s.append(v[i].as_str());
        proof {
            if i == 0 {
                assert(s@ =~= v@[0]@);
            }
        }
        i += 1;
    }
    assert(w.take(i as int) =~= w);
    s
}

/// How many words at the front are no options, that is, do not begin with two dashes.
pub open spec fn plain_words(w: Seq<Seq<char>>) -> nat
    decreases w.len(),
{
    if w.len() == 0 || text::begins_with(w[0], "--"@) {
        0
    } else {
        1 + plain_words(w.skip(1))
    }
}

/// There are no more such words than words.
pub proof fn plain_words_fit(w: Seq<Seq<char>>)
    ensures
        plain_words(w) <= w.len(),
    decreases w.len(),
{
    if w.len() > 0 {
        plain_words_fit(w.skip(1));
    }
}

/// The place after the words from `start` on that are no options.
fn after_plain(v: &Vec<String>, start: usize) -> (end: usize)
    requires
        start <= v@.len(),
    ensures
        start <= end <= v@.len(),
        end - start == plain_words(words(v@).skip(start as int)),
{
    let ghost w = words(v@);
    let mut i: usize = start;
    while i < v.len() && !has_prefix(&v[i], "--")
        invariant
            start <= i <= v@.len(),
            w == words(v@),
            i - start + plain_words(w.skip(i as int)) == plain_words(w.skip(start as int)),
        decreases v@.len() - i,
    {
        assert(w.skip(i as int).skip(1) =~= w.skip(i + 1));
        i += 1;
    }
    i
}

// ---------------------------------------------------------------------------------------------
// Submission
// ---------------------------------------------------------------------------------------------

/// A submission.
pub struct QsubArgs {
    /// The addresses that must finish first.
    pub deps: Vec<String>,
    pub owner: Option<String>,
    /// The words of the command.
    pub cmd: Vec<String>,
}

/// A submission with its words as sequences of characters.
pub struct QsubView {
    pub deps: Seq<Seq<char>>,
    pub owner: Option<Seq<char>>,
    pub cmd: Seq<Seq<char>>,
}

/// The characters of an optional string.
pub open spec fn word(s: Option<String>) -> Option<Seq<char>> {
    match s {
        Some(s) => Some(s@),
        None => None,
    }
}

impl View for QsubArgs {
    type V = QsubView;

    open spec fn view(&self) -> QsubView {
        QsubView { deps: words(self.deps@), owner: word(self.owner), cmd: words(self.cmd@) }
    }
}

/// What the words of a submission say: `--after` takes the words up to the next option as
/// addresses, `--owner` takes one word, `--` ends the options, and the first word that is none of
/// these begins the command.
pub open spec fn qsub_of(
    w: Seq<Seq<char>>,
    deps: Seq<Seq<char>>,
    owner: Option<Seq<char>>,
    ended: bool,
) -> QsubView
    decreases w.len(),
{
    if w.len() == 0 {
        QsubView { deps, owner, cmd: w }
    } else if !ended && w[0] == "--after"@ {
        let n = plain_words(w.skip(1));
        proof {
            plain_words_fit(w.skip(1));
        }
        qsub_of(w.skip(1).skip(n as int), deps + w.skip(1).take(n as int), owner, ended)
    } else if !ended && w[0] == "--owner"@ {
        if w.len() == 1 {
            qsub_of(w.skip(1), deps, owner, ended)
        } else {
            qsub_of(w.skip(2), deps, Some(w[1]), ended)
        }
    } else if !ended && w[0] == "--"@ {
        qsub_of(w.skip(1), deps, owner, true)
    } else {
        QsubView { deps, owner, cmd: w }
    }
}

fn append_words(deps: &mut Vec<String>, v: &Vec<String>, a: usize, b: usize)
    requires
        a <= b <= v@.len(),
    ensures
        words(final(deps)@) == words(old(deps)@) + words(v@).subrange(a as int, b as int),
{
    let ghost before = words(deps@);
    let mut i: usize = a;
    assert(words(deps@) =~= before + words(v@).subrange(a as int, a as int));
    while i < b
        invariant
            a <= i <= b <= v@.len(),
            words(deps@) == before + words(v@).subrange(a as int, i as int),
        decreases b - i,
    {
        let s: String = v[i].clone();
        proof {
            words_push(deps@, s);
            assert(words(v@).subrange(a as int, i + 1) =~= words(v@).subrange(a as int, i as int).push(
                v@[i as int]@,
            ));
            assert((before + words(v@).subrange(a as int, i as int)).push(v@[i as int]@) =~= before + words(
                v@,
            ).subrange(a as int, i + 1));
        }
        deps.push(s);
        i += 1;
    }
}

/// Reads the command line of a submission.
pub fn parse_qsub(args: &Vec<String>) -> (r: Result<QsubArgs, ArgError>)
    ensures
        ({
            let q = qsub_of(words(args@), Seq::empty(), None, false);
            match r {
                Ok(a) => args@.len() > 0 && q.cmd.len() > 0 && a@ == q,
                Err(e) => if args@.len() == 0 {
                    e == ArgError::Usage
                } else {
                    e == ArgError::Missing && q.cmd.len() == 0
                },
            }
        }),
{
    if args.len() == 0 {
        return Err(ArgError::Usage);
    }
    let ghost w = words(args@);
    let ghost q = qsub_of(w, Seq::empty(), None, false);
    let mut deps: Vec<String> = Vec::new();
    let mut owner: Option<String> = None;
    let mut ended: bool = false;
    let mut i: usize = 0;
    proof {
        assert(words(deps@) =~= Seq::<Seq<char>>::empty());
        assert(w.skip(0) =~= w);
    }
    while i < args.len()
        invariant
            i <= args@.len(),
            w == words(args@),
            args@.len() > 0,
            q == qsub_of(w, Seq::empty(), None, false),
            q == qsub_of(w.skip(i as int), words(deps@), word(owner), ended),
        decreases args@.len() - i,
    {
        let ghost rest = w.skip(i as int);
        assert(rest[0] == args@[i as int]@);
        if !ended && is_word(&args[i], "--after") {
            let end: usize = after_plain(args, i + 1);
            proof {
                assert(rest.skip(1) =~= w.skip(i + 1));
                assert(rest.skip(1).skip(end - (i + 1)) =~= w.skip(end as int));
                assert(rest.skip(1).take(end - (i + 1)) =~= w.subrange(i + 1, end as int));
            }
            append_words(&mut deps, args, i + 1, end);
            i = end;
        } else if !ended && is_word(&args[i], "--owner") {
            assert(rest.skip(1) =~= w.skip(i + 1));
            i += 1;
            if i < args.len() {
                assert(rest[1] == args@[i as int]@);
                assert(rest.skip(2) =~= w.skip(i + 1));
                owner = Some(args[i].clone());
                i += 1;
            }
        } else if !ended && is_word(&args[i], "--") {
            assert(rest.skip(1) =~= w.skip(i + 1));
            ended = true;
            i += 1;
        } else {
            let cmd = copy_words(args, i, args.len());
            assert(w.subrange(i as int, args@.len() as int) =~= rest);
            let a = QsubArgs { deps, owner, cmd };
            assert(a@ == q);
            return Ok(a);
        }
    }
    Err(ArgError::Missing)
}

/// The text of a submitted command: its words, and before them the owner, where there is one.
pub open spec fn qsub_text(cmd: Seq<Seq<char>>, owner: Option<Seq<char>>) -> Seq<char> {
    match owner {
        Some(o) => "export TREN_OWNER="@ + o + "\n"@ + joined(cmd, " "@),
        None => joined(cmd, " "@),
    }
}

/// Writes the text of a submitted command.
pub fn qsub_body(a: &QsubArgs) -> (s: String)
    ensures
        s@ == qsub_text(a@.cmd, a@.owner),
{
    let cmd = join(&a.cmd, " ");
    match &a.owner {
        Some(o) => {
            let mut s: String = "export TREN_OWNER=".to_owned();
            s.append(o.as_str());
            s.append("\n");
            s.append(cmd.as_str());
            s
        },
        None => cmd,
    }
}

// ---------------------------------------------------------------------------------------------
// Gathering
// ---------------------------------------------------------------------------------------------

/// The place of the first `--`, or the number of words.
pub open spec fn separator(w: Seq<Seq<char>>) -> nat
    decreases w.len(),
{
    if w.len() == 0 || w[0] == "--"@ {
        0
    } else {
        1 + separator(w.skip(1))
    }
}

/// Reads the command line of a gathering: addresses, `--`, and a command; neither may be empty.
pub fn parse_qbind(args: &Vec<String>) -> (r: Result<(Vec<String>, Vec<String>), ArgError>)
    ensures
        ({
            let w = words(args@);
            let n = separator(w);
            match r {
                Ok((deps, cmd)) => 0 < n && n + 1 < w.len() && words(deps@) == w.take(n as int) && words(cmd@)
                    == w.skip((n + 1) as int),
                Err(e) => if w.len() == 0 {
                    e == ArgError::Usage
                } else {
                    e == ArgError::Missing && (n == 0 || n + 1 >= w.len())
                },
            }
        }),
{
    if args.len() == 0 {
        return Err(ArgError::Usage);
    }
    let ghost w = words(args@);
    let mut n: usize = 0;
    assert(w.skip(0) =~= w);
    while n < args.len() && !is_word(&args[n], "--")
        invariant
            n <= args@.len(),
            w == words(args@),
            n + separator(w.skip(n as int)) == separator(w),
        decreases args@.len() - n,
    {
        assert(w.skip(n as int).skip(1) =~= w.skip(n + 1));
        n += 1;
    }
    if n == 0 || n >= args.len() || n == args.len() - 1 {
        return Err(ArgError::Missing);
    }
    let deps = copy_words(args, 0, n);
    let cmd = copy_words(args, n + 1, args.len());
    proof {
        assert(w.subrange(0, n as int) =~= w.take(n as int));
        assert(w.subrange(n + 1, w.len() as int) =~= w.skip(n + 1));
    }
    Ok((deps, cmd))
}

/// The text of a gathered command, which knows its group.
pub fn qbind_body(ns: &str, cmd: &Vec<String>) -> (s: String)
    ensures
        s@ == "export TREN_NS="@ + ns@ + "\n"@ + joined(words(cmd@), " "@),
{
    let body = join(cmd, " ");
    let mut s: String = "export TREN_NS=".to_owned();
    s.append(ns);
    s.append("\n");
    s.append(body.as_str());
    s
}

// ---------------------------------------------------------------------------------------------
// Scattering
// ---------------------------------------------------------------------------------------------

/// What the words of a scattering say: addresses after `--after`, and the other words.
pub open spec fn qmap_of(
    w: Seq<Seq<char>>,
    deps: Seq<Seq<char>>,
    pos: Seq<Seq<char>>,
    ended: bool,
) -> (Seq<Seq<char>>, Seq<Seq<char>>)
    decreases w.len(),
{
    if w.len() == 0 {
        (deps, pos)
    } else if !ended && w[0] == "--after"@ {
        let n = plain_words(w.skip(1));
        proof {
            plain_words_fit(w.skip(1));
        }
        qmap_of(w.skip(1).skip(n as int), deps + w.skip(1).take(n as int), pos, ended)
    } else if !ended && w[0] == "--"@ {
        qmap_of(w.skip(1), deps, pos, true)
    } else {
        qmap_of(w.skip(1), deps, pos.push(w[0]), ended)
    }
}

/// A scattering.
pub struct QmapArgs {
    pub deps: Vec<String>,
    /// Where the items come from.
    pub items: String,
    /// The command, with `{}` for the item.
    pub template: String,
}

/// Reads the command line of a scattering: items and the words of a template.
pub fn parse_qmap(args: &Vec<String>) -> (r: Result<QmapArgs, ArgError>)
    ensures
        ({
            let (deps, pos) = qmap_of(words(args@), Seq::empty(), Seq::empty(), false);
            match r {
                Ok(a) => {
                    &&& args@.len() >= 2
                    &&& pos.len() >= 2
                    &&& words(a.deps@) == deps
                    &&& a.items@ == pos[0]
                    &&& a.template@ == joined(pos.skip(1), " "@)
                },
                Err(e) => if args@.len() < 2 {
                    e == ArgError::Usage
                } else {
                    e == ArgError::Missing && pos.len() < 2
                },
            }
        }),
{
    if args.len() < 2 {
        return Err(ArgError::Usage);
    }
    let ghost w = words(args@);
    let ghost q = qmap_of(w, Seq::empty(), Seq::empty(), false);
    let mut deps: Vec<String> = Vec::new();
    let mut pos: Vec<String> = Vec::new();
    let mut ended: bool = false;
    let mut i: usize = 0;
    proof {
        assert(words(deps@) =~= Seq::<Seq<char>>::empty());
        assert(w.skip(0) =~= w);
    }
    while i < args.len()
        invariant
            i <= args@.len(),
            w == words(args@),
            q == qmap_of(w.skip(i as int), words(deps@), words(pos@), ended),
        decreases args@.len() - i,
    {
        let ghost rest = w.skip(i as int);
        assert(rest[0] == args@[i as int]@);
        assert(rest.skip(1) =~= w.skip(i + 1));
        if !ended && is_word(&args[i], "--after") {
            let end: usize = after_plain(args, i + 1);
            proof {
                assert(rest.skip(1).skip(end - (i + 1)) =~= w.skip(end as int));
                assert(rest.skip(1).take(end - (i + 1)) =~= w.subrange(i + 1, end as int));
            }
            append_words(&mut deps, args, i + 1, end);
            i = end;
        } else if !ended && is_word(&args[i], "--") {
            ended = true;
            i += 1;
        } else {
            let s: String = args[i].clone();
            proof {
                words_push(pos@, s);
            }
            pos.push(s);
            i += 1;
        }
    }
    if pos.len() < 2 {
        return Err(ArgError::Missing);
    }
    let rest = copy_words(&pos, 1, pos.len());
    assert(words(pos@).subrange(1, pos@.len() as int) =~= words(pos@).skip(1));
    Ok(QmapArgs { deps, items: pos[0].clone(), template: join(&rest, " ") })
}

/// The pieces of a text between the places of a character.
pub open spec fn pieces(s: Seq<char>, c: char) -> Seq<Seq<char>>
    decreases s.len(),
{
    if s.contains(c) {
        let i = choose|i: int| text::first_at(s, c, i);
        if 0 <= i < s.len() {
            seq![s.take(i)] + pieces(s.skip(i + 1), c)
        } else {
            seq![s]
        }
    } else {
        seq![s]
    }
}

/// What is left of pieces without white space around them; nothing of those that hold nothing
/// else.
pub open spec fn filled(p: Seq<Seq<char>>) -> Seq<Seq<char>>
    decreases p.len(),
{
    if p.len() == 0 {
        p
    } else {
        let rest = filled(p.drop_last());
        let t = text::trimmed(p.last());
        if t.len() > 0 {
            rest.push(t)
        } else {
            rest
        }
    }
}

fn split(s: &str, c: char) -> (r: Vec<String>)
    ensures
        words(r@) == pieces(s@, c),
{
    let mut r: Vec<String> = Vec::new();
    let mut v = text::chars_of(s);
    let ghost all = pieces(s@, c);
    assert(words(r@) + pieces(v@, c) =~= all);
    loop
        invariant
            words(r@) + pieces(v@, c) == all,
            all == pieces(s@, c),
        decreases v@.len(),
    {
        match text::find(&v, c) {
            Some(i) => {
                proof {
                    text::first_is_unique(v@, c, i as int);
                    assert(v@.contains(v@[i as int]));
                }
                let head = text::cut(&v, 0, i);
                let n: usize = v.len();
                let rest = text::cut(&v, i + 1, n);
                let piece = text::string_of(&head);
                proof {
                    assert(head@ =~= v@.take(i as int));
                    assert(rest@ =~= v@.skip(i + 1));
                    words_push(r@, piece);
                    assert(words(r@).push(piece@) + pieces(rest@, c) =~= words(r@) + pieces(v@, c));
                }
                r.push(piece);
                v = rest;
            },
            None => {
                let piece = text::string_of(&v);
                proof {
                    assert(!v@.contains(c));
                    words_push(r@, piece);
                    assert(words(r@).push(piece@) =~= words(r@) + pieces(v@, c));
                }
                r.push(piece);
                return r;
            },
        }
    }
}

fn fill(p: &Vec<String>) -> (r: Vec<String>)
    ensures
        words(r@) == filled(words(p@)),
{
    let mut r: Vec<String> = Vec::new();
    let ghost w = words(p@);
    let mut i: usize = 0;
    proof {
        assert(w.take(0) =~= Seq::<Seq<char>>::empty());
        assert(words(r@) =~= Seq::<Seq<char>>::empty());
    }
    while i < p.len()
        invariant
            i <= p@.len(),
            w == words(p@),
            words(r@) == filled(w.take(i as int)),
        decreases p@.len() - i,
    {
        assert(w.take(i + 1).drop_last() =~= w.take(i as int));
        let v = text::chars_of(p[i].as_str());
        let t = text::trim(&v);
        if t.len() > 0 {
            let s = text::string_of(&t);
            proof {
                words_push(r@, s);
            }
            r.push(s);
        }
        i += 1;
    }
    assert(w.take(i as int) =~= w);
    r
}

/// The items in a file, one on each line.
pub fn items_in_file(contents: &str) -> (items: Vec<String>)
    ensures
        words(items@) == filled(autogc::lines_of(contents@)),
{
    let lines = read_autogc_log_lines(Some(contents));
    fill(&lines)
}

/// The items in a list with colons between them; a text without a colon is one item.
pub fn items_in_list(list: &str) -> (items: Vec<String>)
    ensures
        words(items@) == (if list@.contains(':') {
            filled(pieces(list@, ':'))
        } else {
            seq![list@]
        }),
{
    let v = text::chars_of(list);
    match text::find(&v, ':') {
        Some(i) => {
            assert(list@.contains(list@[i as int]));
            let p = split(list, ':');
            fill(&p)
        },
        None => {
            let mut items: Vec<String> = Vec::new();
            items.push(list.to_owned());
            assert(words(items@) =~= seq![list@]);
            items
        },
    }
}

/// A template with an item in place of every `{}`.
pub open spec fn filled_in(template: Seq<char>, item: Seq<char>) -> Seq<char>
    decreases template.len(),
{
    if template.len() < 2 {
        template
    } else if template[0] == '{' && template[1] == '}' {
        item + filled_in(template.skip(2), item)
    } else {
        seq![template[0]] + filled_in(template.skip(1), item)
    }
}

/// Puts an item into a template.
pub fn expand_template(template: &str, item: &str) -> (s: String)
    ensures
        s@ == filled_in(template@, item@),
{
    let v = text::chars_of(template);
    let mut s: String = String::new();
    let mut i: usize = 0;
    assert(s@ + filled_in(v@.skip(0), item@) =~= filled_in(template@, item@)) by {
        assert(v@.skip(0) =~= template@);
    }
    while i < v.len()
        invariant
            i <= v@.len(),
            v@ == template@,
            s@ + filled_in(v@.skip(i as int), item@) == filled_in(template@, item@),
        decreases v@.len() - i,
    {
        let ghost rest = v@.skip(i as int);
        if v.len() - i >= 2 && v[i] == '{' && v[i + 1] == '}' {
            proof {
                assert(rest[0] == '{' && rest[1] == '}');
                assert(rest.skip(2) =~= v@.skip(i + 2));
                assert(s@ + item@ + filled_in(rest.skip(2), item@) =~= s@ + filled_in(rest, item@));
            }
            s.append(item);
            i += 2;
        } else {
            proof {
                assert(rest[0] == v@[i as int]);
                if rest.len() >= 2 {
                    assert(rest[1] == v@[i + 1]);
                    assert(rest.skip(1) =~= v@.skip(i + 1));
                } else {
                    assert(rest =~= seq![rest[0]]);
                    assert(v@.skip(i + 1) =~= Seq::<char>::empty());
                }
                assert(s@.push(rest[0]) + filled_in(v@.skip(i + 1), item@) =~= s@ + filled_in(rest, item@));
            }
            s.push(v[i]);
            i += 1;
        }
    }
    assert(v@.skip(i as int) =~= Seq::<char>::empty());
    s
}

// ---------------------------------------------------------------------------------------------
// Running and waiting
// ---------------------------------------------------------------------------------------------

/// A run that leaves a mark.
pub struct QrunArgs {
    /// Where the mark goes; nothing means the usual place.
    pub marker: Option<String>,
    pub any_mode: bool,
    pub parallel: bool,
    /// The words after the options.
    pub tail: Vec<String>,
}

/// A run with its words as sequences of characters.
pub struct QrunView {
    pub marker: Option<Seq<char>>,
    pub any_mode: bool,
    pub parallel: bool,
    pub tail: Seq<Seq<char>>,
}

impl View for QrunArgs {
    type V = QrunView;

    open spec fn view(&self) -> QrunView {
        QrunView {
            marker: word(self.marker),
            any_mode: self.any_mode,
            parallel: self.parallel,
            tail: words(self.tail@),
        }
    }
}

/// What the words of a run say; nothing if `--marker` lacks its path.
pub open spec fn qrun_of(
    w: Seq<Seq<char>>,
    marker: Option<Seq<char>>,
    any_mode: bool,
    parallel: bool,
) -> Option<QrunView>
    decreases w.len(),
{
    if w.len() == 0 {
        Some(QrunView { marker, any_mode, parallel, tail: w })
    } else if w[0] == "--marker"@ {
        if w.len() == 1 {
            None
        } else {
            qrun_of(w.skip(2), Some(w[1]), any_mode, parallel)
        }
    } else if w[0] == "--any"@ {
        qrun_of(w.skip(1), marker, true, parallel)
    } else if w[0] == "--parallel"@ {
        qrun_of(w.skip(1), marker, any_mode, true)
    } else {
        Some(QrunView { marker, any_mode, parallel, tail: w })
    }
}

/// Reads the command line of a run.
pub fn parse_qrun(args: &Vec<String>) -> (r: Result<QrunArgs, ArgError>)
    ensures
        ({
            let q = qrun_of(words(args@), None, false, false);
            match r {
                Ok(a) => q == Some(a@) && a@.tail.len() > 0,
                Err(e) => if args@.len() == 0 {
                    e == ArgError::Usage
                } else {
                    match q {
                        None => e == ArgError::NeedsValue,
                        Some(v) => e == ArgError::Missing && v.tail.len() == 0,
                    }
                },
            }
        }),
{
    if args.len() == 0 {
        return Err(ArgError::Usage);
    }
    let ghost w = words(args@);
    let ghost q = qrun_of(w, None, false, false);
    let mut marker: Option<String> = None;
    let mut any_mode: bool = false;
    let mut parallel: bool = false;
    let mut i: usize = 0;
    assert(w.skip(0) =~= w);
    while i < args.len()
        invariant
            i <= args@.len(),
            w == words(args@),
            args@.len() > 0,
            q == qrun_of(w, None, false, false),
            q == qrun_of(w.skip(i as int), word(marker), any_mode, parallel),
        decreases args@.len() - i,
    {
        let ghost rest = w.skip(i as int);
        assert(rest[0] == args@[i as int]@);
        assert(rest.skip(1) =~= w.skip(i + 1));
        if is_word(&args[i], "--marker") {
            i += 1;
            if i >= args.len() {
                return Err(ArgError::NeedsValue);
            }
            assert(rest[1] == args@[i as int]@);
            assert(rest.skip(2) =~= w.skip(i + 1));
            marker = Some(args[i].clone());
        } else if is_word(&args[i], "--any") {
            any_mode = true;
        } else if is_word(&args[i], "--parallel") {
            parallel = true;
        } else {
            let tail = copy_words(args, i, args.len());
            assert(w.subrange(i as int, args@.len() as int) =~= rest);
            let a = QrunArgs { marker, any_mode, parallel, tail };
            assert(q == Some(a@));
            return Ok(a);
        }
        i += 1;
    }
    assert(w.skip(i as int).len() == 0);
    Err(ArgError::Missing)
}

/// The groups of words between separators; groups without words do not count. The last group is
/// still open.
pub open spec fn groups(w: Seq<Seq<char>>) -> (Seq<Seq<char>>, Seq<Seq<char>>)
    decreases w.len(),
{
    if w.len() == 0 {
        (Seq::empty(), Seq::empty())
    } else {
        let (closed_groups, open_group) = groups(w.drop_last());
        if w.last() == ":::"@ {
            (close(closed_groups, open_group), Seq::empty())
        } else {
            (closed_groups, open_group.push(w.last()))
        }
    }
}

/// The groups after the open one was closed.
pub open spec fn close(done: Seq<Seq<char>>, group: Seq<Seq<char>>) -> Seq<Seq<char>> {
    if group.len() > 0 {
        done.push(joined(group, " "@))
    } else {
        done
    }
}

/// The commands in the words of a parallel run.
pub open spec fn commands(w: Seq<Seq<char>>) -> Seq<Seq<char>> {
    close(groups(w).0, groups(w).1)
}

/// Splits the words of a run into commands: at `:::` if they run in parallel, else into one.
pub fn split_commands(tail: &Vec<String>, parallel: bool) -> (r: Vec<String>)
    ensures
        words(r@) == (if parallel {
            commands(words(tail@))
        } else {
            seq![joined(words(tail@), " "@)]
        }),
{
    let mut r: Vec<String> = Vec::new();
    if !parallel {
        r.push(join(tail, " "));
        assert(words(r@) =~= seq![joined(words(tail@), " "@)]);
        return r;
    }
    let ghost w = words(tail@);
    let mut group: Vec<String> = Vec::new();
    let mut i: usize = 0;
    proof {
        assert(w.take(0) =~= Seq::<Seq<char>>::empty());
        assert(words(r@) =~= Seq::<Seq<char>>::empty());
        assert(words(group@) =~= Seq::<Seq<char>>::empty());
    }
    while i < tail.len()
        invariant
            i <= tail@.len(),
            w == words(tail@),
            words(r@) == groups(w.take(i as int)).0,
            words(group@) == groups(w.take(i as int)).1,
        decreases tail@.len() - i,
    {
        proof {
            assert(w.take(i + 1).drop_last() =~= w.take(i as int));
            assert(w.take(i + 1).last() == tail@[i as int]@);
        }
        if is_word(&tail[i], ":::") {
            if group.len() > 0 {
                let s = join(&group, " ");
                proof {
                    words_push(r@, s);
                }
                r.push(s);
                group = Vec::new();
            }
            assert(words(group@) =~= Seq::<Seq<char>>::empty());
        } else {
            let s: String = tail[i].clone();
            proof {
                words_push(group@, s);
            }
            group.push(s);
        }
        i += 1;
    }
    assert(w.take(i as int) =~= w);
    if group.len() > 0 {
        let s = join(&group, " ");
        proof {
            words_push(r@, s);
        }
        r.push(s);
    }
    r
}

/// Reads the command line of a wait: `--any` first, then addresses.
pub fn parse_qwait(args: &Vec<String>) -> (r: Result<(bool, Vec<String>), ArgError>)
    ensures
        ({
            let w = words(args@);
            let any_mode = w.len() > 0 && w[0] == "--any"@;
            match r {
                Ok((any, targets)) => w.len() > 0 && any == any_mode && targets@.len() > 0 && words(targets@)
                    == (if any_mode {
                    w.skip(1)
                } else {
                    w
                }),
                Err(e) => if w.len() == 0 {
                    e == ArgError::Usage
                } else {
                    e == ArgError::Missing && any_mode && w.len() == 1
                },
            }
        }),
{
    if args.len() == 0 {
        return Err(ArgError::Usage);
    }
    let ghost w = words(args@);
    assert(w[0] == args@[0]@);
    let any_mode: bool = is_word(&args[0], "--any");
    let from: usize = if any_mode {
        1
    } else {
        0
    };
    if from >= args.len() {
        return Err(ArgError::Missing);
    }
    let targets = copy_words(args, from, args.len());
    proof {
        assert(w.subrange(from as int, w.len() as int) =~= w.skip(from as int));
        assert(w.skip(0) =~= w);
        assert(words(targets@).len() == targets@.len());
    }
    Ok((any_mode, targets))
}

/// Whether a word looks like an address: digits of base two, the first of them a one.
pub open spec fn like_address(s: Seq<char>) -> bool {
    s.len() > 0 && s[0] == '1' && forall|i: int| 0 <= i < s.len() ==> #[trigger] s[i] == '0' || s[i] == '1'
}

fn looks_like_addr(s: &String) -> (r: bool)
    ensures
        r == like_address(s@),
{
    let v = text::chars_of(s.as_str());
    if v.len() == 0 || v[0] != '1' {
        return false;
    }
    let mut i: usize = 0;
    while i < v.len()
        invariant
            i <= v@.len(),
            v@ == s@,
            forall|k: int| 0 <= k < i ==> #[trigger] v@[k] == '0' || v@[k] == '1',
        decreases v@.len() - i,
    {
        if v[i] != '0' && v[i] != '1' {
            return false;
        }
        i += 1;
    }
    true
}

/// A wait that leaves a mark.
pub struct QwaitMarkArgs {
    /// Where the mark goes; nothing means the usual place.
    pub marker: Option<String>,
    /// How often `--any` was given.
    pub any_count: usize,
    pub targets: Vec<String>,
}

/// What the words of a marked wait say.
pub struct MarkView {
    pub marker: Option<Seq<char>>,
    pub any_count: nat,
    pub positional: Seq<Seq<char>>,
}

/// Reads words one after the other: options wherever they stand, other words in order. What is
/// wrong comes first: help that was asked for, or `--marker` without its path.
pub open spec fn mark_of(w: Seq<Seq<char>>, m: MarkView) -> Result<MarkView, ArgError>
    decreases w.len(),
{
    if w.len() == 0 {
        Ok(m)
    } else if w[0] == "--marker"@ {
        if w.len() == 1 {
            Err(ArgError::NeedsValue)
        } else {
            mark_of(w.skip(2), MarkView { marker: Some(w[1]), ..m })
        }
    } else if w[0] == "--any"@ {
        mark_of(w.skip(1), MarkView { any_count: m.any_count + 1, ..m })
    } else if w[0] == "-h"@ || w[0] == "--help"@ {
        Err(ArgError::Help)
    } else {
        mark_of(w.skip(1), MarkView { positional: m.positional.push(w[0]), ..m })
    }
}

/// Without `--marker`, a last word that does not look like an address is where the mark goes.
pub open spec fn with_last_marker(m: MarkView) -> MarkView {
    if m.marker is None && m.positional.len() > 0 && !like_address(m.positional.last()) {
        MarkView { marker: Some(m.positional.last()), positional: m.positional.drop_last(), ..m }
    } else {
        m
    }
}

/// Reads the command line of a marked wait.
pub fn parse_qwait_mark(args: &Vec<String>) -> (r: Result<QwaitMarkArgs, ArgError>)
    ensures
        ({
            let q = mark_of(
                words(args@),
                (MarkView { marker: None, any_count: 0, positional: Seq::empty() }),
            );
            match r {
                Ok(a) => {
                    &&& args@.len() > 0
                    &&& a.targets@.len() > 0
                    &&& q matches Ok(m) && with_last_marker(m) == (MarkView {
                        marker: word(a.marker),
                        any_count: a.any_count as nat,
                        positional: words(a.targets@),
                    })
                },
                Err(e) => if args@.len() == 0 {
                    e == ArgError::Usage
                } else {
                    match q {
                        Err(x) => e == x,
                        Ok(m) => e == ArgError::Missing && with_last_marker(m).positional.len() == 0,
                    }
                },
            }
        }),
{
    if args.len() == 0 {
        return Err(ArgError::Usage);
    }
    let ghost w = words(args@);
    let ghost start = MarkView { marker: None, any_count: 0, positional: Seq::empty() };
    let ghost q = mark_of(w, start);
    let mut marker: Option<String> = None;
    let mut any_count: usize = 0;
    let mut positional: Vec<String> = Vec::new();
    let mut i: usize = 0;
    proof {
        assert(w.skip(0) =~= w);
        assert(words(positional@) =~= Seq::<Seq<char>>::empty());
    }
    while i < args.len()
        invariant
            i <= args@.len(),
            args@.len() > 0,
            w == words(args@),
            any_count <= i,
            start == (MarkView { marker: None, any_count: 0, positional: Seq::empty() }),
            q == mark_of(w, start),
            q == mark_of(
                w.skip(i as int),
                MarkView {
                    marker: word(marker),
                    any_count: any_count as nat,
                    positional: words(positional@),
                },
            ),
        decreases args@.len() - i,
    {
        let ghost rest = w.skip(i as int);
        assert(rest[0] == args@[i as int]@);
        assert(rest.skip(1) =~= w.skip(i + 1));
        if is_word(&args[i], "--marker") {
            i += 1;
            if i >= args.len() {
                return Err(ArgError::NeedsValue);
            }
            assert(rest[1] == args@[i as int]@);
            assert(rest.skip(2) =~= w.skip(i + 1));
            marker = Some(args[i].clone());
        } else if is_word(&args[i], "--any") {
            any_count += 1;
        } else if is_word(&args[i], "-h") || is_word(&args[i], "--help") {
            return Err(ArgError::Help);
        } else {
            let s: String = args[i].clone();
            proof {
                words_push(positional@, s);
            }
            positional.push(s);
        }
        i += 1;
    }
    let ghost m = MarkView {
        marker: word(marker),
        any_count: any_count as nat,
        positional: words(positional@),
    };
    assert(w.skip(i as int).len() == 0);
    assert(q == Ok::<MarkView, ArgError>(m));
    if marker.is_none() && positional.len() > 0 {
        let last: usize = positional.len() - 1;
        assert(m.positional.last() == positional@[last as int]@);
        if !looks_like_addr(&positional[last]) {
            let ghost before = positional@;
            marker = positional.pop();
            proof {
                assert(words(positional@) =~= words(before).drop_last());
            }
        }
    }
    if positional.len() == 0 {
        assert(words(positional@).len() == 0);
        return Err(ArgError::Missing);
    }
    Ok(QwaitMarkArgs { marker, any_count, targets: positional })
}

/// The words of the wait that a marked wait asks for: `--any` as often as it was given, then the
/// addresses.
pub open spec fn wait_words(any_count: nat, targets: Seq<Seq<char>>) -> Seq<Seq<char>> {
    Seq::new(any_count, |i: int| "--any"@) + targets
}

/// The command line of the wait that a marked wait asks for. Only a first `--any` is an option
/// there; another one is waited for like an address.
pub fn qwait_words(a: &QwaitMarkArgs) -> (r: Vec<String>)
    ensures
        words(r@) == wait_words(a.any_count as nat, words(a.targets@)),
{
    let mut r: Vec<String> = Vec::new();
    let mut i: usize = 0;
    assert(words(r@) =~= Seq::<Seq<char>>::empty());
    while i < a.any_count
        invariant
            i <= a.any_count,
            words(r@) == Seq::new(i as nat, |k: int| "--any"@),
        decreases a.any_count - i,
    {
        let s: String = "--any".to_owned();
        proof {
            words_push(r@, s);
        }
        r.push(s);
        i += 1;
        assert(words(r@) =~= Seq::new(i as nat, |k: int| "--any"@));
    }
    let ghost all = words(a.targets@);
    let mut j: usize = 0;
    assert(words(r@) =~= wait_words(a.any_count as nat, all.take(0)));
    while j < a.targets.len()
        invariant
            j <= a.targets@.len(),
            all == words(a.targets@),
            words(r@) == wait_words(a.any_count as nat, all.take(j as int)),
        decreases a.targets@.len() - j,
    {
        let s: String = a.targets[j].clone();
        proof {
            words_push(r@, s);
            assert(all[j as int] == a.targets@[j as int]@);
        }
        r.push(s);
        assert(words(r@) =~= wait_words(a.any_count as nat, all.take(j + 1)));
        j += 1;
    }
    assert(all.take(j as int) =~= all);
    r
}

// ---------------------------------------------------------------------------------------------
// Whole trees and status
// ---------------------------------------------------------------------------------------------

/// How deep a tree of empty jobs may be: deeper ones do not fit into a spill.
pub const MAX_CLONE_DEPTH: u64 = 5;

/// What the words of a clone say: the depth, or what is wrong first. Every number replaces the one
/// before.
pub open spec fn clone_depth(w: Seq<Seq<char>>, at: nat, depth: nat) -> Result<nat, ArgError>
    decreases w.len(),
{
    if w.len() == 0 {
        Ok(depth)
    } else if w[0] != "--depth"@ {
        Err(ArgError::Unknown(at as usize))
    } else if w.len() == 1 {
        Err(ArgError::NeedsValue)
    } else {
        match text::unsigned_value(w[1], 10, u64::MAX as nat) {
            Some(n) => clone_depth(w.skip(2), at + 2, n),
            None => Err(ArgError::NeedsValue),
        }
    }
}

/// Reads the command line of a clone; the depth is one unless the words say otherwise.
pub fn parse_qclone(args: &Vec<String>) -> (r: Result<u64, ArgError>)
    ensures
        match clone_depth(words(args@), 0, 1) {
            Ok(n) => if n > MAX_CLONE_DEPTH {
                r == Err::<u64, ArgError>(ArgError::TooDeep)
            } else {
                r matches Ok(d) && d == n
            },
            Err(e) => r == Err::<u64, ArgError>(e),
        },
{
    let ghost w = words(args@);
    let mut depth: u64 = 1;
    let mut i: usize = 0;
    assert(w.skip(0) =~= w);
    while i < args.len()
        invariant
            i <= args@.len(),
            w == words(args@),
            clone_depth(w, 0, 1) == clone_depth(w.skip(i as int), i as nat, depth as nat),
        decreases args@.len() - i,
    {
        let ghost rest = w.skip(i as int);
        assert(rest[0] == args@[i as int]@);
        if !is_word(&args[i], "--depth") {
            return Err(ArgError::Unknown(i));
        }
        if i + 1 >= args.len() {
            return Err(ArgError::NeedsValue);
        }
        assert(rest[1] == args@[i + 1]@);
        assert(rest.skip(2) =~= w.skip(i + 2));
        let v = text::chars_of(args[i + 1].as_str());
        match text::parse_unsigned(&v, 10, u64::MAX) {
            Some(n) => {
                depth = n;
            },
            None => {
                return Err(ArgError::NeedsValue);
            },
        }
        i += 2;
    }
    assert(w.skip(i as int).len() == 0);
    if depth > MAX_CLONE_DEPTH {
        return Err(ArgError::TooDeep);
    }
    Ok(depth)
}

/// So many blanks.
pub open spec fn blanks(n: nat) -> Seq<char> {
    Seq::new(n, |i: int| ' ')
}

/// A text with blanks behind it, up to a width.
pub open spec fn padded_right(s: Seq<char>, width: nat) -> Seq<char> {
    if s.len() < width {
        s + blanks((width - s.len()) as nat)
    } else {
        s
    }
}

/// A text with blanks before it, up to a width.
pub open spec fn padded_left(s: Seq<char>, width: nat) -> Seq<char> {
    if s.len() < width {
        blanks((width - s.len()) as nat) + s
    } else {
        s
    }
}

fn push_blanks(s: &mut String, n: usize)
    ensures
        final(s)@ == old(s)@ + blanks(n as nat),
{
    let mut i: usize = 0;
    assert(s@ =~= old(s)@ + blanks(0));
    while i < n
        invariant
            i <= n,
            s@ == old(s)@ + blanks(i as nat),
        decreases n - i,
    {
        s.push(' ');
        i += 1;
        assert(s@ =~= old(s)@ + blanks(i as nat));
    }
}

fn push_right(s: &mut String, t: &str, width: usize)
    ensures
        final(s)@ == old(s)@ + padded_right(t@, width as nat),
{
    let n: usize = text::chars_of(t).len();
    s.append(t);
    if n < width {
        push_blanks(s, width - n);
        assert(s@ =~= old(s)@ + (t@ + blanks((width - n) as nat)));
    }
}

fn push_left(s: &mut String, t: &str, width: usize)
    ensures
        final(s)@ == old(s)@ + padded_left(t@, width as nat),
{
    let n: usize = text::chars_of(t).len();
    if n < width {
        push_blanks(s, width - n);
        s.append(t);
        assert(s@ =~= old(s)@ + (blanks((width - n) as nat) + t@));
    } else {
        s.append(t);
    }
}

/// A line of the status table: address, depth, state, process, command.
pub open spec fn row(
    addr: Seq<char>,
    depth: Seq<char>,
    state: Seq<char>,
    pid: Seq<char>,
    cmd: Seq<char>,
) -> Seq<char> {
    padded_right(addr, 10) + " "@ + padded_left(depth, 4) + " "@ + padded_right(state, 14) + " "@
        + padded_right(pid, 12) + " "@ + cmd
}

/// Writes a line of the status table.
pub fn status_row(addr: &str, depth: &str, state: &str, pid: &str, cmd: &str) -> (s: String)
    ensures
        s@ == row(addr@, depth@, state@, pid@, cmd@),
{
    let mut s: String = String::new();
    push_right(&mut s, addr, 10);
    assert(s@ =~= padded_right(addr@, 10));
    s.append(" ");
    push_left(&mut s, depth, 4);
    s.append(" ");
    push_right(&mut s, state, 14);
    s.append(" ");
    push_right(&mut s, pid, 12);
    s.append(" ");
    s.append(cmd);
    s
}

} // verus!
