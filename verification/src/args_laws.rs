//! What the command lines mean, said of whole lines: how a line that was put together is read, and
//! how reading one line relates to reading another.

use vstd::prelude::*;

use crate::args;
use crate::args::{ArgError, MarkView, QrunView, QsubView};
use crate::autogc;
use crate::text;

verus! {

/// Whether a word begins with two dashes.
pub open spec fn dashed(w: Seq<char>) -> bool {
    w.len() >= 2 && w[0] == '-' && w[1] == '-'
}

/// Whether no word begins with two dashes.
pub open spec fn undashed(w: Seq<Seq<char>>) -> bool {
    forall|i: int| 0 <= i < w.len() ==> !dashed(#[trigger] w[i])
}

proof fn option_words()
    ensures
        "--after"@ != "--owner"@,
        "--after"@ != "--"@,
        "--owner"@ != "--"@,
        "--marker"@ != "--any"@,
        "--marker"@ != "--parallel"@,
        "--any"@ != "--parallel"@,
        "--marker"@ != "-h"@,
        "--marker"@ != "--help"@,
        "--any"@ != "-h"@,
        "--any"@ != "--help"@,
        dashed("--after"@),
        dashed("--owner"@),
        dashed("--"@),
        dashed("--any"@),
        dashed("--marker"@),
        dashed("--help"@),
        "--"@.len() == 2,
{
    reveal_strlit("--after");
    reveal_strlit("--owner");
    reveal_strlit("--");
    reveal_strlit("--marker");
    reveal_strlit("--any");
    reveal_strlit("--parallel");
    reveal_strlit("-h");
    reveal_strlit("--help");
    assert("--after"@[2] == 'a');
    assert("--owner"@[2] == 'o');
    assert("--after"@.len() == 7 && "--owner"@.len() == 7 && "--"@.len() == 2 && "-h"@.len() == 2);
    assert("--any"@.len() == 5 && "--marker"@.len() == 8 && "--parallel"@.len() == 10 && "--help"@.len() == 6);
}

proof fn dashed_begins(w: Seq<char>)
    ensures
        text::begins_with(w, "--"@) == dashed(w),
{
    reveal_strlit("--");
    let p = "--"@;
    if dashed(w) {
        assert(w.take(2) =~= p);
    }
    if text::begins_with(w, p) {
        assert(w.take(2)[0] == p[0] && w.take(2)[1] == p[1]);
    }
}

proof fn plain_front(a: Seq<Seq<char>>, w: Seq<Seq<char>>)
    requires
        undashed(a),
        w.len() == 0 || dashed(w[0]),
    ensures
        args::plain_words(a + w) == a.len(),
    decreases a.len(),
{
    let all = a + w;
    if a.len() == 0 {
        assert(all =~= w);
        if w.len() > 0 {
            dashed_begins(w[0]);
        }
    } else {
        assert(!dashed(a[0]));
        dashed_begins(a[0]);
        assert(all[0] == a[0]);
        assert(all.skip(1) =~= a.skip(1) + w);
        assert forall|i: int| 0 <= i < a.skip(1).len() implies !dashed(#[trigger] a.skip(1)[i]) by {
            assert(!dashed(a[i + 1]));
        }
        plain_front(a.skip(1), w);
    }
}

// ---------------------------------------------------------------------------------------------
// Submission
// ---------------------------------------------------------------------------------------------

/// Every word after `--after`, up to the next option, is a dependency, however many there are, in
/// order and behind those that were given before.
pub proof fn law_after_takes_every_word(
    a: Seq<Seq<char>>,
    w: Seq<Seq<char>>,
    deps: Seq<Seq<char>>,
    owner: Option<Seq<char>>,
)
    requires
        undashed(a),
        w.len() == 0 || dashed(w[0]),
    ensures
        args::qsub_of(seq!["--after"@] + a + w, deps, owner, false) == args::qsub_of(w, deps + a, owner, false),
{
    let all = seq!["--after"@] + a + w;
    option_words();
    plain_front(a, w);
    assert(all[0] == "--after"@);
    assert(all.skip(1) =~= a + w);
    assert((a + w).take(a.len() as int) =~= a);
    assert((a + w).skip(a.len() as int) =~= w);
}

/// `--owner` takes one word, whatever it is; a later one replaces it.
pub proof fn law_owner_takes_one_word(
    o: Seq<char>,
    w: Seq<Seq<char>>,
    deps: Seq<Seq<char>>,
    owner: Option<Seq<char>>,
)
    ensures
        args::qsub_of(seq!["--owner"@, o] + w, deps, owner, false) == args::qsub_of(w, deps, Some(o), false),
{
    let all = seq!["--owner"@, o] + w;
    option_words();
    assert(all[0] == "--owner"@ && all[1] == o);
    assert(all.skip(2) =~= w);
}

/// All words after `--` are the command, even those that look like options.
pub proof fn law_command_follows_dashes(
    c: Seq<Seq<char>>,
    deps: Seq<Seq<char>>,
    owner: Option<Seq<char>>,
)
    ensures
        args::qsub_of(seq!["--"@] + c, deps, owner, false) == (QsubView { deps, owner, cmd: c }),
{
    let all = seq!["--"@] + c;
    option_words();
    assert(all[0] == "--"@);
    assert(all.skip(1) =~= c);
    assert(args::qsub_of(c, deps, owner, true) == (QsubView { deps, owner, cmd: c }));
}

/// Without `--` the command begins at the first word that is none of the three options, and keeps
/// all words from there on.
pub proof fn law_command_begins_at_first_other_word(
    c: Seq<Seq<char>>,
    deps: Seq<Seq<char>>,
    owner: Option<Seq<char>>,
)
    requires
        c.len() > 0,
        c[0] != "--after"@,
        c[0] != "--owner"@,
        c[0] != "--"@,
    ensures
        args::qsub_of(c, deps, owner, false) == (QsubView { deps, owner, cmd: c }),
{
}

/// A submission that names dependencies, an owner and a command is read as these: no dependency
/// is lost, a single one as little as many, and no word of the command.
pub proof fn law_submission_is_read(a: Seq<Seq<char>>, o: Seq<char>, c: Seq<Seq<char>>)
    requires
        undashed(a),
    ensures
        args::qsub_of(seq!["--after"@] + a + (seq!["--"@] + c), Seq::empty(), None, false) == (QsubView {
            deps: a,
            owner: None,
            cmd: c,
        }),
        args::qsub_of(
            seq!["--after"@] + a + (seq!["--owner"@, o] + (seq!["--"@] + c)),
            Seq::empty(),
            None,
            false,
        ) == (QsubView { deps: a, owner: Some(o), cmd: c }),
        args::qsub_of(
            seq!["--owner"@, o] + (seq!["--after"@] + a + (seq!["--"@] + c)),
            Seq::empty(),
            None,
            false,
        ) == (QsubView { deps: a, owner: Some(o), cmd: c }),
        args::qsub_of(seq!["--"@] + c, Seq::empty(), None, false) == (QsubView {
            deps: Seq::empty(),
            owner: None,
            cmd: c,
        }),
{
    let none = Seq::<Seq<char>>::empty();
    let tail = seq!["--"@] + c;
    let owned = seq!["--owner"@, o] + tail;
    option_words();
    assert(none + a =~= a);
    assert(tail[0] == "--"@);
    assert(owned[0] == "--owner"@);
    law_after_takes_every_word(a, tail, none, None);
    law_command_follows_dashes(c, a, None);
    law_after_takes_every_word(a, owned, none, None);
    law_owner_takes_one_word(o, tail, a, None);
    law_command_follows_dashes(c, a, Some(o));
    law_owner_takes_one_word(o, seq!["--after"@] + a + tail, none, None);
    law_after_takes_every_word(a, tail, none, Some(o));
    law_command_follows_dashes(c, none, None);
}

/// Joining two lists of words gives their texts with one separator between; a single word is
/// itself, and nothing is lost.
pub proof fn law_joining_keeps_every_word(a: Seq<Seq<char>>, b: Seq<Seq<char>>, x: Seq<char>, sep: Seq<char>)
    requires
        a.len() > 0,
        b.len() > 0,
    ensures
        args::joined(a + b, sep) == args::joined(a, sep) + sep + args::joined(b, sep),
        args::joined(seq![x], sep) == x,
        args::joined(Seq::empty(), sep) == Seq::<char>::empty(),
    decreases b.len(),
{
    let all = a + b;
    assert(seq![x].len() == 1 && seq![x][0] == x);
    if b.len() == 1 {
        assert(all.drop_last() =~= a);
        assert(all.last() == b[0]);
    } else {
        let rest = b.drop_last();
        law_joining_keeps_every_word(a, rest, x, sep);
        assert(all.drop_last() =~= a + rest);
        assert(all.last() == b.last());
        assert(args::joined(all, sep) =~= args::joined(a, sep) + sep + args::joined(b, sep));
    }
}

/// What is submitted runs the command as it was given: the text ends in its words with one blank
/// between, and an owner is set before them and nothing else.
pub proof fn law_submitted_text(cmd: Seq<Seq<char>>, o: Seq<char>)
    ensures
        args::qsub_text(cmd, None) == args::joined(cmd, " "@),
        args::qsub_text(cmd, Some(o)) == "export TREN_OWNER="@ + o + "\n"@ + args::qsub_text(cmd, None),
        " "@ == seq![' '],
        "\n"@ == seq!['\n'],
{
    reveal_strlit(" ");
    reveal_strlit("\n");
    assert(" "@ =~= seq![' ']);
    assert("\n"@ =~= seq!['\n']);
}

// ---------------------------------------------------------------------------------------------
// Gathering and scattering
// ---------------------------------------------------------------------------------------------

/// A gathering of addresses is read as these addresses and the command behind the first `--`, with
/// any further `--` in the command.
pub proof fn law_gathering_is_read(a: Seq<Seq<char>>, c: Seq<Seq<char>>)
    requires
        forall|i: int| 0 <= i < a.len() ==> #[trigger] a[i] != "--"@,
    ensures
        ({
            let w = a + seq!["--"@] + c;
            let n = args::separator(w) as int;
            n == a.len() && w.take(n) == a && w.skip(n + 1) == c
        }),
        args::separator(a) == a.len(),
    decreases a.len(),
{
    let w = a + seq!["--"@] + c;
    if a.len() == 0 {
        assert(w[0] == "--"@);
    } else {
        assert(w[0] == a[0]);
        assert(w.skip(1) =~= a.skip(1) + seq!["--"@] + c);
        assert forall|i: int| 0 <= i < a.skip(1).len() implies #[trigger] a.skip(1)[i] != "--"@ by {
            assert(a[i + 1] != "--"@);
        }
        law_gathering_is_read(a.skip(1), c);
    }
    assert(w.take(a.len() as int) =~= a);
    assert(w.skip(a.len() as int + 1) =~= c);
}

proof fn words_after_dashes(w: Seq<Seq<char>>, deps: Seq<Seq<char>>, pos: Seq<Seq<char>>)
    ensures
        args::qmap_of(w, deps, pos, true) == (deps, pos + w),
    decreases w.len(),
{
    if w.len() == 0 {
        assert(pos + w =~= pos);
    } else {
        words_after_dashes(w.skip(1), deps, pos.push(w[0]));
        assert(pos.push(w[0]) + w.skip(1) =~= pos + w);
    }
}

/// A scattering is read as the addresses after `--after`, all of them, and the other words in
/// order; after `--` every word counts, and other words may stand before an option.
pub proof fn law_scattering_is_read(
    a: Seq<Seq<char>>,
    c: Seq<Seq<char>>,
    w: Seq<Seq<char>>,
    deps: Seq<Seq<char>>,
    pos: Seq<Seq<char>>,
    x: Seq<char>,
)
    requires
        undashed(a),
        w.len() == 0 || dashed(w[0]),
        x != "--after"@,
        x != "--"@,
    ensures
        args::qmap_of(seq!["--after"@] + a + (seq!["--"@] + c), Seq::empty(), Seq::empty(), false) == (a, c),
        args::qmap_of(seq!["--after"@] + a + w, deps, pos, false) == args::qmap_of(w, deps + a, pos, false),
        args::qmap_of(seq!["--"@] + c, deps, pos, false) == (deps, pos + c),
        args::qmap_of(seq![x] + c, deps, pos, false) == args::qmap_of(c, deps, pos.push(x), false),
{
    option_words();
    let none = Seq::<Seq<char>>::empty();
    let tail = seq!["--"@] + c;
    assert(tail[0] == "--"@ && tail.skip(1) =~= c);
    words_after_dashes(c, deps, pos);
    words_after_dashes(c, a, none);
    assert(none + c =~= c);
    assert(none + a =~= a);
    after_in_scattering(a, w, deps, pos);
    after_in_scattering(a, tail, none, none);
    let other = seq![x] + c;
    assert(other[0] == x && other.skip(1) =~= c);
}

proof fn after_in_scattering(
    a: Seq<Seq<char>>,
    w: Seq<Seq<char>>,
    deps: Seq<Seq<char>>,
    pos: Seq<Seq<char>>,
)
    requires
        undashed(a),
        w.len() == 0 || dashed(w[0]),
    ensures
        args::qmap_of(seq!["--after"@] + a + w, deps, pos, false) == args::qmap_of(w, deps + a, pos, false),
{
    let all = seq!["--after"@] + a + w;
    plain_front(a, w);
    assert(all[0] == "--after"@);
    assert(all.skip(1) =~= a + w);
    assert((a + w).take(a.len() as int) =~= a);
    assert((a + w).skip(a.len() as int) =~= w);
}

/// Whether `{}` stands at a place of a text.
pub open spec fn placeholder_at(t: Seq<char>, i: int) -> bool {
    0 <= i && i + 1 < t.len() && t[i] == '{' && t[i + 1] == '}'
}

/// A text without `{}` stays as it is.
pub proof fn law_text_without_placeholder_stays(t: Seq<char>, item: Seq<char>)
    requires
        forall|i: int| !#[trigger] placeholder_at(t, i),
    ensures
        args::filled_in(t, item) == t,
    decreases t.len(),
{
    if t.len() >= 2 {
        assert(!placeholder_at(t, 0));
        let rest = t.skip(1);
        assert forall|i: int| !#[trigger] placeholder_at(rest, i) by {
            assert(!placeholder_at(t, i + 1));
        }
        law_text_without_placeholder_stays(rest, item);
        assert(seq![t[0]] + rest =~= t);
    }
}

/// Every `{}` is replaced, wherever it stands, the end of the template included: what stands before
/// it and what stands behind it are expanded each for itself, and the item stands between.
pub proof fn law_every_placeholder_is_replaced(p: Seq<char>, q: Seq<char>, item: Seq<char>)
    ensures
        args::filled_in(p + seq!['{', '}'] + q, item) == args::filled_in(p, item) + item + args::filled_in(
            q,
            item,
        ),
    decreases p.len(),
{
    let t = p + seq!['{', '}'] + q;
    if p.len() == 0 {
        assert(t[0] == '{' && t[1] == '}');
        assert(t.skip(2) =~= q);
        assert(args::filled_in(p, item) =~= Seq::<char>::empty());
        assert(args::filled_in(t, item) =~= args::filled_in(p, item) + item + args::filled_in(q, item));
    } else if p.len() == 1 {
        assert(t[0] == p[0] && t[1] == '{');
        let rest = t.skip(1);
        assert(rest =~= Seq::<char>::empty() + seq!['{', '}'] + q);
        law_every_placeholder_is_replaced(Seq::empty(), q, item);
        assert(args::filled_in(Seq::<char>::empty(), item) =~= Seq::<char>::empty());
        assert(p =~= seq![p[0]]);
        assert(args::filled_in(t, item) =~= args::filled_in(p, item) + item + args::filled_in(q, item));
    } else {
        assert(t[0] == p[0] && t[1] == p[1]);
        if p[0] == '{' && p[1] == '}' {
            assert(t.skip(2) =~= p.skip(2) + seq!['{', '}'] + q);
            law_every_placeholder_is_replaced(p.skip(2), q, item);
        } else {
            assert(t.skip(1) =~= p.skip(1) + seq!['{', '}'] + q);
            law_every_placeholder_is_replaced(p.skip(1), q, item);
        }
        assert(args::filled_in(t, item) =~= args::filled_in(p, item) + item + args::filled_in(q, item));
    }
}

/// A template with one `{}` becomes its text with the item in that place; what stands around it
/// may be empty.
pub proof fn law_template_takes_the_item(p: Seq<char>, q: Seq<char>, item: Seq<char>)
    requires
        forall|i: int| !#[trigger] placeholder_at(p, i),
        forall|i: int| !#[trigger] placeholder_at(q, i),
    ensures
        args::filled_in(p + seq!['{', '}'] + q, item) == p + item + q,
{
    law_every_placeholder_is_replaced(p, q, item);
    law_text_without_placeholder_stays(p, item);
    law_text_without_placeholder_stays(q, item);
}

proof fn same_front(t: Seq<char>, item: Seq<char>)
    requires
        item.len() > 0,
        !item.contains('{'),
        !item.contains('}'),
    ensures
        t.len() > 0 ==> args::filled_in(t, item).len() > 0,
        args::filled_in(t, item).len() > 0 && args::filled_in(t, item)[0] == '}' ==> t.len() > 0 && t[0] == '}',
{
    if t.len() >= 2 && t[0] == '{' && t[1] == '}' {
        assert(args::filled_in(t, item)[0] == item[0]);
        assert(item.contains(item[0]));
    } else if t.len() >= 2 {
        assert(args::filled_in(t, item)[0] == t[0]);
    }
}

/// With an item that is not empty and holds no braces, no `{}` is left.
pub proof fn law_no_placeholder_is_left(t: Seq<char>, item: Seq<char>, i: int)
    requires
        item.len() > 0,
        !item.contains('{'),
        !item.contains('}'),
    ensures
        !placeholder_at(args::filled_in(t, item), i),
    decreases t.len(),
{
    let r = args::filled_in(t, item);
    if t.len() >= 2 && t[0] == '{' && t[1] == '}' {
        let rest = args::filled_in(t.skip(2), item);
        law_no_placeholder_is_left(t.skip(2), item, i - item.len());
        if placeholder_at(r, i) {
            if i < item.len() {
                assert(r[i] == item[i]);
                assert(item.contains(item[i]));
            } else {
                assert(r[i] == rest[i - item.len()] && r[i + 1] == rest[i - item.len() + 1]);
            }
        }
    } else if t.len() >= 2 {
        let rest = args::filled_in(t.skip(1), item);
        law_no_placeholder_is_left(t.skip(1), item, i - 1);
        same_front(t.skip(1), item);
        if placeholder_at(r, i) {
            if i == 0 {
                assert(r[0] == t[0] && r[1] == rest[0]);
                assert(t.skip(1)[0] == t[1]);
            } else {
                assert(r[i] == rest[i - 1] && r[i + 1] == rest[i]);
            }
        }
    }
}

// ---------------------------------------------------------------------------------------------
// Items
// ---------------------------------------------------------------------------------------------

/// Whether there is no white space around a text.
pub open spec fn tight(s: Seq<char>) -> bool {
    s.len() > 0 ==> !text::white_space(s[0]) && !text::white_space(s.last())
}

/// Whether a text is white space only.
pub open spec fn white(s: Seq<char>) -> bool {
    forall|i: int| 0 <= i < s.len() ==> text::white_space(#[trigger] s[i])
}

proof fn front_cut(a: Seq<char>, s: Seq<char>)
    requires
        white(a),
        s.len() > 0 ==> !text::white_space(s[0]),
    ensures
        text::trim_start(a + s) == s,
    decreases a.len(),
{
    if a.len() == 0 {
        assert(a + s =~= s);
    } else {
        assert((a + s)[0] == a[0]);
        assert((a + s).skip(1) =~= a.skip(1) + s);
        assert forall|i: int| 0 <= i < a.skip(1).len() implies text::white_space(#[trigger] a.skip(1)[i]) by {
            assert(text::white_space(a[i + 1]));
        }
        front_cut(a.skip(1), s);
    }
}

proof fn end_cut(s: Seq<char>, b: Seq<char>)
    requires
        white(b),
        s.len() > 0 ==> !text::white_space(s.last()),
    ensures
        text::trim_end(s + b) == s,
    decreases b.len(),
{
    if b.len() == 0 {
        assert(s + b =~= s);
    } else {
        assert((s + b).last() == b[b.len() - 1]);
        assert((s + b).drop_last() =~= s + b.drop_last());
        assert forall|i: int| 0 <= i < b.drop_last().len() implies text::white_space(
            #[trigger] b.drop_last()[i],
        ) by {
            assert(text::white_space(b[i]));
        }
        end_cut(s, b.drop_last());
    }
}

/// White space is cut off both ends of a text, all of it, and nothing else.
pub proof fn law_trimming_cuts_white_space_only(a: Seq<char>, s: Seq<char>, b: Seq<char>)
    requires
        white(a),
        white(b),
        tight(s),
    ensures
        text::trimmed(a + s + b) == s,
{
    if s.len() > 0 {
        let t = s + b;
        assert(a + s + b =~= a + t);
        assert(t[0] == s[0]);
        front_cut(a, t);
        end_cut(s, b);
    } else {
        let w = a + s + b;
        assert forall|i: int| 0 <= i < w.len() implies text::white_space(#[trigger] w[i]) by {
            if i < a.len() {
                assert(w[i] == a[i]);
            } else {
                assert(w[i] == b[i - a.len()]);
            }
        }
        assert(w + s =~= w);
        front_cut(w, s);
        assert(text::trim_end(s) == s);
    }
}

proof fn joined_front(x: Seq<char>, w: Seq<Seq<char>>, sep: Seq<char>)
    requires
        w.len() > 0,
    ensures
        args::joined(seq![x] + w, sep) == x + sep + args::joined(w, sep),
{
    law_joining_keeps_every_word(seq![x], w, x, sep);
}

/// The pieces of a text make up the text again, with the character between them, and none of them
/// holds it.
pub proof fn law_pieces_make_up_the_text(s: Seq<char>, c: char)
    ensures
        args::joined(args::pieces(s, c), seq![c]) == s,
        args::pieces(s, c).len() > 0,
        forall|i: int| 0 <= i < args::pieces(s, c).len() ==> !(#[trigger] args::pieces(s, c)[i]).contains(c),
    decreases s.len(),
{
    let p = args::pieces(s, c);
    if s.contains(c) {
        let k = choose|k: int| 0 <= k < s.len() && s[k] == c;
        first_exists(s, c, k);
        let i = choose|i: int| text::first_at(s, c, i);
        assert(text::first_at(s, c, i));
        let rest = s.skip(i + 1);
        law_pieces_make_up_the_text(rest, c);
        joined_front(s.take(i), args::pieces(rest, c), seq![c]);
        assert(s =~= s.take(i) + seq![c] + rest);
        assert forall|j: int| 0 <= j < p.len() implies !(#[trigger] p[j]).contains(c) by {
            if j > 0 {
                assert(p[j] == args::pieces(rest, c)[j - 1]);
            } else if p[0].contains(c) {
                let m = choose|m: int| 0 <= m < s.take(i).len() && s.take(i)[m] == c;
                assert(s[m] == c);
            }
        }
    } else {
        assert(args::joined(seq![s], seq![c]) == s);
    }
}

proof fn first_exists(s: Seq<char>, c: char, k: int)
    requires
        0 <= k < s.len(),
        s[k] == c,
    ensures
        exists|i: int| text::first_at(s, c, i),
    decreases k,
{
    if exists|j: int| 0 <= j < k && s[j] == c {
        let j = choose|j: int| 0 <= j < k && s[j] == c;
        first_exists(s, c, j);
    } else {
        assert(text::first_at(s, c, k));
    }
}

proof fn pieces_of_joined(v: Seq<Seq<char>>, c: char)
    requires
        v.len() > 0,
        forall|i: int| 0 <= i < v.len() ==> !(#[trigger] v[i]).contains(c),
    ensures
        args::pieces(args::joined(v, seq![c]), c) == v,
    decreases v.len(),
{
    let s = args::joined(v, seq![c]);
    assert(!v[0].contains(c));
    if v.len() == 1 {
        assert(v =~= seq![v[0]]);
    } else {
        let rest = v.skip(1);
        assert(v =~= seq![v[0]] + rest);
        joined_front(v[0], rest, seq![c]);
        let n = v[0].len() as int;
        let tail = args::joined(rest, seq![c]);
        assert(s == v[0] + seq![c] + tail);
        assert(s[n] == c);
        assert(text::first_at(s, c, n)) by {
            assert forall|j: int| 0 <= j < n implies s[j] != c by {
                assert(s[j] == v[0][j]);
                assert(v[0].contains(v[0][j]));
            }
        }
        text::first_is_unique(s, c, n);
        assert(s.take(n) =~= v[0]);
        assert(s.skip(n + 1) =~= tail);
        assert forall|i: int| 0 <= i < rest.len() implies !(#[trigger] rest[i]).contains(c) by {
            assert(!v[i + 1].contains(c));
        }
        pieces_of_joined(rest, c);
        assert(seq![v[0]] + rest =~= v);
    }
}

/// Items keep their order, and items are found in two lists of pieces as in one.
pub proof fn law_filling_keeps_order(p: Seq<Seq<char>>, q: Seq<Seq<char>>)
    ensures
        args::filled(p + q) == args::filled(p) + args::filled(q),
    decreases q.len(),
{
    if q.len() == 0 {
        assert(p + q =~= p);
        assert(args::filled(p) + args::filled(q) =~= args::filled(p));
    } else {
        assert((p + q).drop_last() =~= p + q.drop_last());
        law_filling_keeps_order(p, q.drop_last());
        let t = text::trimmed(q.last());
        let a = args::filled(p);
        let b = args::filled(q.drop_last());
        assert((a + b).push(t) =~= a + b.push(t));
    }
}

/// A piece gives one item, without the white space around it, unless it holds nothing else.
pub proof fn law_piece_gives_its_item(a: Seq<char>, s: Seq<char>, b: Seq<char>)
    requires
        white(a),
        white(b),
        tight(s),
    ensures
        args::filled(seq![a + s + b]) == (if s.len() > 0 {
            seq![s]
        } else {
            Seq::empty()
        }),
{
    law_trimming_cuts_white_space_only(a, s, b);
    let p = seq![a + s + b];
    assert(p.drop_last() =~= Seq::<Seq<char>>::empty());
    assert(args::filled(p.drop_last()) =~= Seq::<Seq<char>>::empty());
    assert(args::filled(p) =~= (if s.len() > 0 {
        seq![s]
    } else {
        Seq::empty()
    }));
}

proof fn filled_items(v: Seq<Seq<char>>)
    requires
        forall|i: int| 0 <= i < v.len() ==> (#[trigger] v[i]).len() > 0 && tight(v[i]),
    ensures
        args::filled(v) == v,
    decreases v.len(),
{
    if v.len() > 0 {
        let rest = v.drop_last();
        assert forall|i: int| 0 <= i < rest.len() implies (#[trigger] rest[i]).len() > 0 && tight(rest[i]) by {
            assert(rest[i] == v[i]);
        }
        filled_items(rest);
        let x = v[v.len() - 1];
        let none = Seq::<char>::empty();
        assert(none + x + none =~= x);
        law_trimming_cuts_white_space_only(none, x, none);
        assert(rest.push(x) =~= v);
    }
}

/// Items that are listed with colons between them are the items that are scattered, and so are
/// items that stand on the lines of a file.
pub proof fn law_items_are_found(v: Seq<Seq<char>>)
    requires
        v.len() > 0,
        forall|i: int| 0 <= i < v.len() ==> (#[trigger] v[i]).len() > 0 && tight(v[i]),
    ensures
        (forall|i: int| 0 <= i < v.len() ==> !(#[trigger] v[i]).contains(':')) ==> args::filled(
            args::pieces(args::joined(v, seq![':']), ':'),
        ) == v,
        (forall|i: int| 0 <= i < v.len() ==> !(#[trigger] v[i]).contains('\n')) ==> args::filled(
            autogc::lines_of(autogc::text_of(v)),
        ) == v,
{
    filled_items(v);
    if forall|i: int| 0 <= i < v.len() ==> !(#[trigger] v[i]).contains(':') {
        pieces_of_joined(v, ':');
    }
    if forall|i: int| 0 <= i < v.len() ==> !(#[trigger] v[i]).contains('\n') {
        assert forall|i: int| 0 <= i < v.len() implies autogc::plain(#[trigger] v[i]) by {
            assert(!v[i].contains('\n'));
            assert(v[i].last() as u32 != 0xD);
        }
        autogc::law_log_reads_back(v);
    }
}

// ---------------------------------------------------------------------------------------------
// Running and waiting
// ---------------------------------------------------------------------------------------------

/// The options of a run may stand in any order and number before its words: each says what it says
/// whatever follows, and the first other word begins the words of the run.
pub proof fn law_run_is_read(
    w: Seq<Seq<char>>,
    m: Seq<char>,
    marker: Option<Seq<char>>,
    any_mode: bool,
    parallel: bool,
)
    ensures
        args::qrun_of(seq!["--marker"@, m] + w, marker, any_mode, parallel) == args::qrun_of(
            w,
            Some(m),
            any_mode,
            parallel,
        ),
        args::qrun_of(seq!["--any"@] + w, marker, any_mode, parallel) == args::qrun_of(w, marker, true, parallel),
        args::qrun_of(seq!["--parallel"@] + w, marker, any_mode, parallel) == args::qrun_of(
            w,
            marker,
            any_mode,
            true,
        ),
        args::qrun_of(seq!["--marker"@], marker, any_mode, parallel) is None,
        w.len() > 0 && w[0] != "--marker"@ && w[0] != "--any"@ && w[0] != "--parallel"@ ==> args::qrun_of(
            w,
            marker,
            any_mode,
            parallel,
        ) == Some((QrunView { marker, any_mode, parallel, tail: w })),
{
    option_words();
    let a = seq!["--marker"@, m] + w;
    assert(a[0] == "--marker"@ && a[1] == m && a.skip(2) =~= w);
    let b = seq!["--any"@] + w;
    assert(b[0] == "--any"@ && b.skip(1) =~= w);
    let c = seq!["--parallel"@] + w;
    assert(c[0] == "--parallel"@ && c.skip(1) =~= w);
    assert(seq!["--marker"@][0] == "--marker"@);
}

proof fn groups_after(a: Seq<Seq<char>>, b: Seq<Seq<char>>)
    ensures
        args::groups(a + seq![":::"@] + b).0 == args::commands(a) + args::groups(b).0,
        args::groups(a + seq![":::"@] + b).1 == args::groups(b).1,
    decreases b.len(),
{
    let w = a + seq![":::"@] + b;
    if b.len() == 0 {
        assert(w.drop_last() =~= a);
        assert(w.last() == ":::"@);
        assert(args::commands(a) + args::groups(b).0 =~= args::commands(a));
    } else {
        let rest = b.drop_last();
        assert(w.drop_last() =~= a + seq![":::"@] + rest);
        assert(w.last() == b.last());
        groups_after(a, rest);
        let (done, open) = args::groups(rest);
        let all = args::commands(a);
        if open.len() > 0 {
            assert((all + done).push(args::joined(open, " "@)) =~= all + done.push(args::joined(open, " "@)));
        }
    }
}

/// Commands are cut at every `:::` and nowhere else: what stands before it and what stands behind
/// it are cut each for itself.
pub proof fn law_commands_are_cut_at_separators(a: Seq<Seq<char>>, b: Seq<Seq<char>>)
    ensures
        args::commands(a + seq![":::"@] + b) == args::commands(a) + args::commands(b),
{
    groups_after(a, b);
    let (done, open) = args::groups(b);
    let all = args::commands(a);
    if open.len() > 0 {
        assert((all + done).push(args::joined(open, " "@)) =~= all + done.push(args::joined(open, " "@)));
    }
    assert(args::commands(a + seq![":::"@] + b) =~= all + args::commands(b));
}

/// Words without `:::` are one command, their text with blanks between; no words are none.
pub proof fn law_words_without_separator_are_one_command(g: Seq<Seq<char>>)
    requires
        forall|i: int| 0 <= i < g.len() ==> #[trigger] g[i] != ":::"@,
    ensures
        args::commands(g) == (if g.len() > 0 {
            seq![args::joined(g, " "@)]
        } else {
            Seq::empty()
        }),
{
    open_group(g);
    assert(args::commands(g) =~= (if g.len() > 0 {
        seq![args::joined(g, " "@)]
    } else {
        Seq::empty()
    }));
}

proof fn open_group(g: Seq<Seq<char>>)
    requires
        forall|i: int| 0 <= i < g.len() ==> #[trigger] g[i] != ":::"@,
    ensures
        args::groups(g) == (Seq::<Seq<char>>::empty(), g),
    decreases g.len(),
{
    if g.len() > 0 {
        let rest = g.drop_last();
        assert(g[g.len() - 1] != ":::"@);
        assert forall|i: int| 0 <= i < rest.len() implies #[trigger] rest[i] != ":::"@ by {
            assert(rest[i] == g[i]);
        }
        open_group(rest);
        assert(rest.push(g.last()) =~= g);
    } else {
        assert(g =~= Seq::<Seq<char>>::empty());
    }
}

/// The options of a marked wait may stand anywhere among its words, and every other word is kept
/// in order.
pub proof fn law_marked_wait_is_read(w: Seq<Seq<char>>, p: Seq<char>, x: Seq<char>, m: MarkView)
    requires
        x != "--marker"@,
        x != "--any"@,
        x != "-h"@,
        x != "--help"@,
    ensures
        args::mark_of(seq!["--marker"@, p] + w, m) == args::mark_of(w, (MarkView { marker: Some(p), ..m })),
        args::mark_of(seq!["--any"@] + w, m) == args::mark_of(w, (MarkView { any_count: m.any_count + 1, ..m })),
        args::mark_of(seq![x] + w, m) == args::mark_of(w, (MarkView { positional: m.positional.push(x), ..m })),
        args::mark_of(seq!["-h"@] + w, m) == Err::<MarkView, ArgError>(ArgError::Help),
        args::mark_of(seq!["--help"@] + w, m) == Err::<MarkView, ArgError>(ArgError::Help),
        args::mark_of(seq!["--marker"@], m) == Err::<MarkView, ArgError>(ArgError::NeedsValue),
        args::mark_of(Seq::empty(), m) == Ok::<MarkView, ArgError>(m),
{
    option_words();
    reveal_strlit("-h");
    reveal_strlit("--help");
    reveal_strlit("--marker");
    reveal_strlit("--any");
    let a = seq!["--marker"@, p] + w;
    assert(a[0] == "--marker"@ && a[1] == p && a.skip(2) =~= w);
    let b = seq!["--any"@] + w;
    assert(b[0] == "--any"@ && b.skip(1) =~= w);
    let c = seq![x] + w;
    assert(c[0] == x && c.skip(1) =~= w);
    let d = seq!["-h"@] + w;
    assert(d[0] == "-h"@);
    let e = seq!["--help"@] + w;
    assert(e[0] == "--help"@);
    assert(seq!["--marker"@][0] == "--marker"@);
}

/// Where the mark goes: to the path that was named; without one, to a last word that is no address,
/// which is then not waited for; a word of zeroes and ones that begins with a one is an address and
/// stays.
pub proof fn law_mark_goes_where_it_was_sent(t: Seq<Seq<char>>, p: Seq<char>, n: nat)
    ensures
        args::with_last_marker((MarkView { marker: Some(p), any_count: n, positional: t })) == (MarkView {
            marker: Some(p),
            any_count: n,
            positional: t,
        }),
        p.len() == 0 || p[0] != '1' || (exists|i: int| 0 <= i < p.len() && #[trigger] p[i] != '0' && p[i] != '1')
            ==> args::with_last_marker((MarkView { marker: None, any_count: n, positional: t.push(p) })) == (
        MarkView { marker: Some(p), any_count: n, positional: t }),
        p.len() > 0 && p[0] == '1' && (forall|i: int| 0 <= i < p.len() ==> #[trigger] p[i] == '0' || p[i] == '1')
            ==> args::with_last_marker((MarkView { marker: None, any_count: n, positional: t.push(p) })) == (
        MarkView { marker: None, any_count: n, positional: t.push(p) }),
{
    assert(t.push(p).drop_last() =~= t);
    assert(t.push(p).last() == p);
}

// ---------------------------------------------------------------------------------------------
// Whole trees and status
// ---------------------------------------------------------------------------------------------

/// The depth of a clone is the number that was written last; it may be up to five.
pub proof fn law_clone_depth_is_read(n: nat, w: Seq<Seq<char>>, at: nat, depth: nat)
    requires
        n <= u64::MAX,
    ensures
        args::clone_depth(seq!["--depth"@, text::digits(n, 10)] + w, at, depth) == args::clone_depth(
            w,
            at + 2,
            n,
        ),
        args::clone_depth(Seq::empty(), at, depth) == Ok::<nat, ArgError>(depth),
        args::MAX_CLONE_DEPTH == 5,
{
    let a = seq!["--depth"@, text::digits(n, 10)] + w;
    assert(a[0] == "--depth"@ && a[1] == text::digits(n, 10) && a.skip(2) =~= w);
    text::law_unsigned_round_trip(n, 10, u64::MAX as nat);
}

/// The columns of the status table stand where they belong: address from the left edge, depth up
/// to column 15, state from column 16, process from column 31 and command from column 44, with
/// blanks between.
pub proof fn law_status_columns(
    addr: Seq<char>,
    depth: Seq<char>,
    state: Seq<char>,
    pid: Seq<char>,
    cmd: Seq<char>,
)
    requires
        addr.len() <= 10,
        depth.len() <= 4,
        state.len() <= 14,
        pid.len() <= 12,
    ensures
        ({
            let r = args::row(addr, depth, state, pid, cmd);
            &&& r.len() == 44 + cmd.len()
            &&& r.take(addr.len() as int) == addr
            &&& r.subrange(15 - depth.len() as int, 15) == depth
            &&& r.subrange(16, 16 + state.len() as int) == state
            &&& r.subrange(31, 31 + pid.len() as int) == pid
            &&& r.skip(44) == cmd
            &&& forall|i: int|
                addr.len() <= i < 15 - depth.len() || i == 15 || 16 + state.len() <= i < 31 || 31 + pid.len() <= i
                    < 44 ==> #[trigger] r[i] == ' '
        }),
{
    reveal_strlit(" ");
    let r = args::row(addr, depth, state, pid, cmd);
    let a = args::padded_right(addr, 10);
    let b = args::padded_left(depth, 4);
    let c = args::padded_right(state, 14);
    let d = args::padded_right(pid, 12);
    assert(a.len() == 10 && b.len() == 4 && c.len() == 14 && d.len() == 12);
    assert(r.take(addr.len() as int) =~= addr);
    assert(r.subrange(15 - depth.len() as int, 15) =~= depth);
    assert(r.subrange(16, 16 + state.len() as int) =~= state);
    assert(r.subrange(31, 31 + pid.len() as int) =~= pid);
    assert(r.skip(44) =~= cmd);
}

} // verus!
