//! The configuration file format: a TOML-shaped, line-oriented text
//! with the three top-level keys `person`, `date_fmt` and `sort`.
//! Emission and parsing are both defined at the spec level and the
//! executable code is pinned to those definitions, which is what
//! makes the write / read round trip provable.

use vstd::prelude::*;
use crate::chars::str_to_chars;
use crate::config::{ConfigV, TomlConfig};
use crate::person::{Person, PersonV};

verus! {

// ---------------------------------------------------------------
// string escaping inside double quotes
// ---------------------------------------------------------------

/// How one character appears inside a double-quoted value: the
/// backslash, the quote, and the three common control characters are
/// escaped, everything else stands for itself.
pub open spec fn esc_char(c: char) -> Seq<char> {
    if c == '\\' {
        seq!['\\', '\\']
    } else if c == '"' {
        seq!['\\', '"']
    } else if c == '\n' {
        seq!['\\', 'n']
    } else if c == '\r' {
        seq!['\\', 'r']
    } else if c == '\t' {
        seq!['\\', 't']
    } else {
        seq![c]
    }
}

/// The escaped form of a whole value.
pub open spec fn esc(s: Seq<char>) -> Seq<char>
    decreases s.len(),
{
    if s.len() == 0 {
        Seq::empty()
    } else {
        esc_char(s[0]) + esc(s.drop_first())
    }
}

/// Undoes `esc`.  A lone trailing backslash, an unknown escape, or a
/// raw quote makes the value ill-formed.
pub open spec fn unesc(s: Seq<char>) -> Option<Seq<char>>
    decreases s.len(),
{
    if s.len() == 0 {
        Some(Seq::empty())
    } else if s[0] == '\\' {
        if s.len() == 1 {
            None
        } else {
            let first = if s[1] == '\\' {
                Some('\\')
            } else if s[1] == '"' {
                Some('"')
            } else if s[1] == 'n' {
                Some('\n')
            } else if s[1] == 'r' {
                Some('\r')
            } else if s[1] == 't' {
                Some('\t')
            } else {
                None
            };
            match first {
                None => None,
                Some(c) => match unesc(s.skip(2)) {
                    None => None,
                    Some(r) => Some(seq![c] + r),
                },
            }
        }
    } else if s[0] == '"' {
        None
    } else {
        match unesc(s.drop_first()) {
            None => None,
            Some(r) => Some(seq![s[0]] + r),
        }
    }
}

/// A sequence with no newline, fit to stand as one line.
pub open spec fn line_free(l: Seq<char>) -> bool {
    forall|i: int| 0 <= i < l.len() ==> l[i] != '\n'
}

/// Escaping appends per character.
pub proof fn lemma_esc_push(s: Seq<char>, c: char)
    ensures
        esc(s.push(c)) == esc(s) + esc_char(c),
    decreases s.len(),
{
    if s.len() == 0 {
        assert(s.push(c)[0] == c);
        assert(s.push(c).drop_first() =~= Seq::<char>::empty());
        assert(esc(s.push(c)) == esc_char(c) + esc(Seq::<char>::empty()));
        assert(esc(s) + esc_char(c) =~= esc_char(c) + esc(Seq::<char>::empty()));
    } else {
        assert(s.push(c)[0] == s[0]);
        assert(s.push(c).drop_first() =~= s.drop_first().push(c));
        lemma_esc_push(s.drop_first(), c);
        assert(esc(s.push(c)) =~= esc(s) + esc_char(c));
    }
}

/// The escaped form holds no newline, and undoing the escaping
/// gives the value back.
pub proof fn lemma_unesc_esc(s: Seq<char>)
    ensures
        unesc(esc(s)) == Some(s),
        line_free(esc(s)),
    decreases s.len(),
{
    if s.len() == 0 {
        assert(unesc(esc(s)) =~= Some(s));
    } else {
        lemma_unesc_esc(s.drop_first());
        let c = s[0];
        let e = esc(s);
        let tail = esc(s.drop_first());
        if c == '\\' || c == '"' || c == '\n' || c == '\r' || c == '\t' {
            assert(e[0] == '\\');
            assert(e.skip(2) =~= tail);
            assert(seq![c] + s.drop_first() =~= s);
            assert forall|i: int| 0 <= i < e.len() implies e[i] != '\n' by {
                if i >= 2 {
                    assert(e[i] == tail[i - 2]);
                }
            }
        } else {
            assert(e[0] == c);
            assert(e.drop_first() =~= tail);
            assert(seq![c] + s.drop_first() =~= s);
            assert forall|i: int| 0 <= i < e.len() implies e[i] != '\n' by {
                if i >= 1 {
                    assert(e[i] == tail[i - 1]);
                }
            }
        }
    }
}

// ---------------------------------------------------------------
// lines
// ---------------------------------------------------------------

/// Joins lines into a text, each line followed by one newline.
pub open spec fn join_lines(ls: Seq<Seq<char>>) -> Seq<char>
    decreases ls.len(),
{
    if ls.len() == 0 {
        Seq::empty()
    } else {
        ls[0] + seq!['\n'] + join_lines(ls.drop_first())
    }
}

/// Splits a text at newlines.  A trailing fragment without a final
/// newline counts as a line of its own; a trailing newline does not
/// open an empty last line.
pub open spec fn split_lines(s: Seq<char>) -> Seq<Seq<char>>
    decreases s.len(),
{
    if s.len() == 0 {
        Seq::empty()
    } else if s[0] == '\n' {
        seq![Seq::<char>::empty()] + split_lines(s.drop_first())
    } else {
        let rest = split_lines(s.drop_first());
        if rest.len() == 0 {
            seq![seq![s[0]]]
        } else {
            seq![seq![s[0]] + rest[0]] + rest.drop_first()
        }
    }
}

/// Splitting one terminated line off the front.
pub proof fn lemma_split_one(l: Seq<char>, t: Seq<char>)
    requires
        line_free(l),
    ensures
        split_lines(l + seq!['\n'] + t) == seq![l] + split_lines(t),
    decreases l.len(),
{
    let s = l + seq!['\n'] + t;
    if l.len() == 0 {
        assert(s[0] == '\n');
        assert(s.drop_first() =~= t);
        assert(l =~= Seq::<char>::empty());
        assert(seq![Seq::<char>::empty()] + split_lines(t) =~= seq![l] + split_lines(t));
    } else {
        assert(s[0] == l[0]);
        assert(s[0] != '\n');
        assert(s.drop_first() =~= l.drop_first() + seq!['\n'] + t);
        assert(line_free(l.drop_first())) by {
            assert(forall|i: int|
                0 <= i < l.drop_first().len() ==> l.drop_first()[i] == #[trigger] l[i + 1]);
        }
        lemma_split_one(l.drop_first(), t);
        let rest = split_lines(s.drop_first());
        assert(rest == seq![l.drop_first()] + split_lines(t));
        assert(rest.len() > 0);
        assert(rest[0] == l.drop_first());
        assert(seq![s[0]] + rest[0] =~= l);
        assert(rest.drop_first() =~= split_lines(t));
        assert(split_lines(s) =~= seq![l] + split_lines(t));
    }
}

/// A non-empty text without newlines is one line.
pub proof fn lemma_split_last(l: Seq<char>)
    requires
        line_free(l),
        l.len() > 0,
    ensures
        split_lines(l) == seq![l],
    decreases l.len(),
{
    if l.len() == 1 {
        assert(l[0] != '\n');
        assert(l.drop_first() =~= Seq::<char>::empty());
        assert(split_lines(Seq::<char>::empty()) == Seq::<Seq<char>>::empty());
        assert(split_lines(l) == seq![seq![l[0]]]);
        assert(seq![l[0]] =~= l);
        assert(split_lines(l) =~~= seq![l]);
    } else {
        assert(line_free(l.drop_first())) by {
            assert(forall|i: int|
                0 <= i < l.drop_first().len() ==> l.drop_first()[i] == #[trigger] l[i + 1]);
        }
        lemma_split_last(l.drop_first());
        assert(seq![l[0]] + l.drop_first() =~= l);
        assert(split_lines(l) =~= seq![l]);
    }
}

/// Joining then splitting gives the lines back, provided no line
/// holds a newline of its own.
pub proof fn lemma_split_join(ls: Seq<Seq<char>>)
    requires
        forall|i: int| 0 <= i < ls.len() ==> line_free(#[trigger] ls[i]),
    ensures
        split_lines(join_lines(ls)) == ls,
    decreases ls.len(),
{
    if ls.len() > 0 {
        lemma_split_join(ls.drop_first());
        lemma_split_one(ls[0], join_lines(ls.drop_first()));
        assert(split_lines(join_lines(ls)) =~= ls);
    }
}

// ---------------------------------------------------------------
// line shapes
// ---------------------------------------------------------------

/// The line that records an empty roster.
pub open spec fn person_empty_line() -> Seq<char> {
    "person = []"@
}

/// The line that switches auto-sort on.
pub open spec fn sort_true_line() -> Seq<char> {
    "sort = true"@
}

/// The line that switches auto-sort off.
pub open spec fn sort_false_line() -> Seq<char> {
    "sort = false"@
}

/// The line that opens one roster entry.
pub open spec fn person_header_line() -> Seq<char> {
    "[[person]]"@
}

/// The opening of a `date_fmt` line, up to and including the quote.
pub open spec fn date_fmt_pre() -> Seq<char> {
    "date_fmt = \""@
}

/// The opening of a `name` line, up to and including the quote.
pub open spec fn name_pre() -> Seq<char> {
    "name = \""@
}

/// The opening of a `tz` line, up to and including the quote.
pub open spec fn tz_pre() -> Seq<char> {
    "tz = \""@
}

/// A whole key line: opening, escaped value, closing quote.
pub open spec fn quoted_line(pre: Seq<char>, v: Seq<char>) -> Seq<char> {
    pre + esc(v) + seq!['"']
}

/// Whether `l` opens with `p`.
pub open spec fn begins_with(l: Seq<char>, p: Seq<char>) -> bool {
    l.len() >= p.len() && l.take(p.len() as int) == p
}

/// The value of a key line: what stands between the opening and the
/// final quote, unescaped.
pub open spec fn quoted_val(l: Seq<char>, pre: Seq<char>) -> Option<Seq<char>> {
    if l.len() >= pre.len() + 1 && l.last() == '"' {
        unesc(l.subrange(pre.len() as int, l.len() - 1))
    } else {
        None
    }
}

/// What one line of the file means.
pub enum Tok {
    Blank,
    EmptyRoster,
    Fmt(Seq<char>),
    AutoSort(bool),
    Head,
    NameKey(Seq<char>),
    ZoneKey(Seq<char>),
    Bad,
}

/// Classifies one line.  The five fixed shapes are recognised whole;
/// a key line is recognised by its opening and must carry a
/// well-formed quoted value; anything else is ill-formed.
pub open spec fn tok_of_line(l: Seq<char>) -> Tok {
    if l.len() == 0 {
        Tok::Blank
    } else if l == person_empty_line() {
        Tok::EmptyRoster
    } else if l == sort_true_line() {
        Tok::AutoSort(true)
    } else if l == sort_false_line() {
        Tok::AutoSort(false)
    } else if l == person_header_line() {
        Tok::Head
    } else if begins_with(l, date_fmt_pre()) {
        match quoted_val(l, date_fmt_pre()) {
            Some(v) => Tok::Fmt(v),
            None => Tok::Bad,
        }
    } else if begins_with(l, name_pre()) {
        match quoted_val(l, name_pre()) {
            Some(v) => Tok::NameKey(v),
            None => Tok::Bad,
        }
    } else if begins_with(l, tz_pre()) {
        match quoted_val(l, tz_pre()) {
            Some(v) => Tok::ZoneKey(v),
            None => Tok::Bad,
        }
    } else {
        Tok::Bad
    }
}

// ---------------------------------------------------------------
// parsing as a fold over line tokens
// ---------------------------------------------------------------

/// The parser's running state: what has been gathered, and the
/// partially filled entry once a `[[person]]` header has been seen.
pub struct PState {
    pub entries: Seq<PersonV>,
    pub date_fmt: Option<Seq<char>>,
    pub sort: Option<bool>,
    pub cur: Option<(Option<Seq<char>>, Option<Seq<char>>)>,
}

/// The state before any line.
pub open spec fn init_state() -> PState {
    PState { entries: Seq::empty(), date_fmt: None, sort: None, cur: None }
}

/// One line's effect on the state.  Top-level keys are accepted only
/// before the first header; each entry takes exactly one `name` and
/// one `tz`; a full entry is flushed by the next header or by the
/// end of the file.
pub open spec fn step(st: PState, t: Tok) -> Option<PState> {
    match t {
        Tok::Blank => Some(st),
        Tok::EmptyRoster => if st.cur is None && st.entries.len() == 0 {
            Some(st)
        } else {
            None
        },
        Tok::Fmt(v) => if st.cur is None {
            Some(PState { entries: st.entries, date_fmt: Some(v), sort: st.sort, cur: None })
        } else {
            None
        },
        Tok::AutoSort(b) => if st.cur is None {
            Some(PState { entries: st.entries, date_fmt: st.date_fmt, sort: Some(b), cur: None })
        } else {
            None
        },
        Tok::Head => match st.cur {
            None => Some(
                PState {
                    entries: st.entries,
                    date_fmt: st.date_fmt,
                    sort: st.sort,
                    cur: Some((None, None)),
                },
            ),
            Some((Some(n), Some(z))) => Some(
                PState {
                    entries: st.entries.push(PersonV { name: n, tz: z }),
                    date_fmt: st.date_fmt,
                    sort: st.sort,
                    cur: Some((None, None)),
                },
            ),
            Some(_) => None,
        },
        Tok::NameKey(v) => match st.cur {
            Some((Option::<Seq<char>>::None, z)) => Some(
                PState {
                    entries: st.entries,
                    date_fmt: st.date_fmt,
                    sort: st.sort,
                    cur: Some((Some(v), z)),
                },
            ),
            _ => None,
        },
        Tok::ZoneKey(v) => match st.cur {
            Some((n, Option::<Seq<char>>::None)) => Some(
                PState {
                    entries: st.entries,
                    date_fmt: st.date_fmt,
                    sort: st.sort,
                    cur: Some((n, Some(v))),
                },
            ),
            _ => None,
        },
        Tok::Bad => None,
    }
}

/// Folds a token sequence over the state.
pub open spec fn steps(st: PState, ts: Seq<Tok>) -> Option<PState>
    decreases ts.len(),
{
    if ts.len() == 0 {
        Some(st)
    } else {
        match step(st, ts[0]) {
            None => None,
            Some(s2) => steps(s2, ts.drop_first()),
        }
    }
}

/// Closes the fold: a pending entry must be complete.
pub open spec fn finish(st: PState) -> Option<ConfigV> {
    match st.cur {
        None => Some(ConfigV { entries: st.entries, date_fmt: st.date_fmt, sort: st.sort }),
        Some((Some(n), Some(z))) => Some(
            ConfigV {
                entries: st.entries.push(PersonV { name: n, tz: z }),
                date_fmt: st.date_fmt,
                sort: st.sort,
            },
        ),
        Some(_) => None,
    }
}

/// The token of every line of a text.
pub open spec fn toks_of(s: Seq<char>) -> Seq<Tok> {
    split_lines(s).map_values(|l: Seq<char>| tok_of_line(l))
}

/// What a configuration file means, or nothing when it is
/// ill-formed.
pub open spec fn parse_spec(s: Seq<char>) -> Option<ConfigV> {
    match steps(init_state(), toks_of(s)) {
        None => None,
        Some(st) => finish(st),
    }
}

// ---------------------------------------------------------------
// emission
// ---------------------------------------------------------------

/// The top-of-file lines: the empty-roster marker when there are no
/// entries, then the two optional settings, each only when present.
pub open spec fn header_lines(c: ConfigV) -> Seq<Seq<char>> {
    (if c.entries.len() == 0 {
        seq![person_empty_line()]
    } else {
        Seq::<Seq<char>>::empty()
    }) + (match c.date_fmt {
        Some(f) => seq![quoted_line(date_fmt_pre(), f)],
        None => Seq::<Seq<char>>::empty(),
    }) + (match c.sort {
        Some(true) => seq![sort_true_line()],
        Some(false) => seq![sort_false_line()],
        None => Seq::<Seq<char>>::empty(),
    })
}

/// One roster entry: a separating blank line, the header, the two
/// key lines.
pub open spec fn person_lines(p: PersonV) -> Seq<Seq<char>> {
    seq![
        Seq::<char>::empty(),
        person_header_line(),
        quoted_line(name_pre(), p.name),
        quoted_line(tz_pre(), p.tz),
    ]
}

/// The lines of all roster entries, in order.
pub open spec fn persons_lines(es: Seq<PersonV>) -> Seq<Seq<char>>
    decreases es.len(),
{
    if es.len() == 0 {
        Seq::<Seq<char>>::empty()
    } else {
        person_lines(es[0]) + persons_lines(es.drop_first())
    }
}

/// The lines of a whole configuration file.
pub open spec fn emit_lines(c: ConfigV) -> Seq<Seq<char>> {
    header_lines(c) + persons_lines(c.entries)
}

/// The text of a whole configuration file.
pub open spec fn emit_spec(c: ConfigV) -> Seq<char> {
    join_lines(emit_lines(c))
}

// ---------------------------------------------------------------
// the round trip
// ---------------------------------------------------------------

/// First characters, lengths and newline-freeness of the fixed line
/// shapes.
proof fn lemma_line_facts()
    ensures
        person_empty_line().len() == 11 && person_empty_line()[0] == 'p' && line_free(
            person_empty_line(),
        ),
        sort_true_line().len() == 11 && sort_true_line()[0] == 's' && line_free(sort_true_line()),
        sort_false_line().len() == 12 && sort_false_line()[0] == 's' && line_free(
            sort_false_line(),
        ),
        person_header_line().len() == 10 && person_header_line()[0] == '[' && line_free(
            person_header_line(),
        ),
        date_fmt_pre().len() == 12 && date_fmt_pre()[0] == 'd' && line_free(date_fmt_pre()),
        name_pre().len() == 8 && name_pre()[0] == 'n' && line_free(name_pre()),
        tz_pre().len() == 6 && tz_pre()[0] == 't' && line_free(tz_pre()),
{
    reveal_strlit("person = []");
    reveal_strlit("sort = true");
    reveal_strlit("sort = false");
    reveal_strlit("[[person]]");
    reveal_strlit("date_fmt = \"");
    reveal_strlit("name = \"");
    reveal_strlit("tz = \"");
}

/// A key line classifies as its key's token carrying its value, and
/// holds no newline.
proof fn lemma_tok_quoted(pre: Seq<char>, v: Seq<char>)
    requires
        pre == date_fmt_pre() || pre == name_pre() || pre == tz_pre(),
    ensures
        line_free(quoted_line(pre, v)),
        pre == date_fmt_pre() ==> tok_of_line(quoted_line(pre, v)) == Tok::Fmt(v),
        pre == name_pre() ==> tok_of_line(quoted_line(pre, v)) == Tok::NameKey(v),
        pre == tz_pre() ==> tok_of_line(quoted_line(pre, v)) == Tok::ZoneKey(v),
{
    lemma_line_facts();
    lemma_unesc_esc(v);
    reveal_strlit("\"");
    let l = quoted_line(pre, v);
    assert(l.len() == pre.len() + esc(v).len() + 1);
    assert(l[0] == pre[0]);
    assert(l.last() == '"') by {
        assert(l[l.len() - 1] == seq!['"'][0]);
    }
    assert(l != person_empty_line());
    assert(l != sort_true_line());
    assert(l != sort_false_line());
    assert(l != person_header_line());
    assert(begins_with(l, pre)) by {
        assert(l.take(pre.len() as int) =~= pre);
    }
    assert(l.subrange(pre.len() as int, l.len() - 1) =~= esc(v));
    assert(quoted_val(l, pre) == Some(v));
    assert(line_free(l)) by {
        assert forall|i: int| 0 <= i < l.len() implies l[i] != '\n' by {
            if i < pre.len() {
                assert(l[i] == pre[i]);
            } else if i < pre.len() + esc(v).len() {
                assert(l[i] == esc(v)[i - pre.len()]);
            } else {
                assert(l[i] == '"');
            }
        }
    }
    if pre == name_pre() {
        assert(!begins_with(l, date_fmt_pre())) by {
            if begins_with(l, date_fmt_pre()) {
                assert(l.take(date_fmt_pre().len() as int)[0] == l[0]);
            }
        }
    }
    if pre == tz_pre() {
        assert(!begins_with(l, date_fmt_pre())) by {
            if begins_with(l, date_fmt_pre()) {
                assert(l.take(date_fmt_pre().len() as int)[0] == l[0]);
            }
        }
        assert(!begins_with(l, name_pre())) by {
            if begins_with(l, name_pre()) {
                assert(l.take(name_pre().len() as int)[0] == l[0]);
            }
        }
    }
}

/// The fixed lines classify as their tokens.
proof fn lemma_tok_fixed()
    ensures
        tok_of_line(Seq::<char>::empty()) == Tok::Blank,
        tok_of_line(person_empty_line()) == Tok::EmptyRoster,
        tok_of_line(sort_true_line()) == Tok::AutoSort(true),
        tok_of_line(sort_false_line()) == Tok::AutoSort(false),
        tok_of_line(person_header_line()) == Tok::Head,
{
    lemma_line_facts();
}

/// Folding distributes over concatenation of token sequences.
proof fn lemma_steps_append(st: PState, a: Seq<Tok>, b: Seq<Tok>)
    ensures
        steps(st, a + b) == match steps(st, a) {
            None => None::<PState>,
            Some(s2) => steps(s2, b),
        },
    decreases a.len(),
{
    if a.len() == 0 {
        assert(a + b =~= b);
    } else {
        assert((a + b)[0] == a[0]);
        assert((a + b).len() > 0);
        match step(st, a[0]) {
            None => {},
            Some(s2) => {
                assert((a + b).drop_first() =~= a.drop_first() + b);
                lemma_steps_append(s2, a.drop_first(), b);
            },
        }
    }
}

/// A state with no half-built entry pending.
pub open spec fn filled(st: PState) -> bool {
    match st.cur {
        None => true,
        Some((Some(_), Some(_))) => true,
        Some(_) => false,
    }
}

/// The entries a state stands for, the pending one included.
pub open spec fn eff(st: PState) -> Seq<PersonV> {
    match st.cur {
        Some((Some(n), Some(z))) => st.entries.push(PersonV { name: n, tz: z }),
        _ => st.entries,
    }
}

/// The header lines of a configuration parse back to its settings,
/// and none of them holds a newline.
proof fn lemma_steps_header(c: ConfigV)
    ensures
        steps(init_state(), header_lines(c).map_values(|l: Seq<char>| tok_of_line(l))) == Some(
            PState { entries: Seq::empty(), date_fmt: c.date_fmt, sort: c.sort, cur: None },
        ),
        forall|i: int| 0 <= i < header_lines(c).len() ==> line_free(#[trigger] header_lines(c)[i]),
{
    lemma_line_facts();
    lemma_tok_fixed();
    reveal_with_fuel(steps, 6);
    let ls = header_lines(c);
    let ts = ls.map_values(|l: Seq<char>| tok_of_line(l));
    assert(ts.len() == ls.len());
    assert forall|i: int| 0 <= i < ls.len() implies line_free(#[trigger] ls[i]) by {
        match c.date_fmt {
            Some(f) => {
                lemma_tok_quoted(date_fmt_pre(), f);
            },
            None => {},
        }
    }
    assert forall|i: int| 0 <= i < ts.len() implies ts[i] == tok_of_line(ls[i]) by {}
    match c.date_fmt {
        Some(f) => {
            lemma_tok_quoted(date_fmt_pre(), f);
        },
        None => {},
    }
    let target = PState { entries: Seq::empty(), date_fmt: c.date_fmt, sort: c.sort, cur: None };
    if c.entries.len() == 0 {
        match (c.date_fmt, c.sort) {
            (Some(f), Some(b)) => {
                assert(ts =~= seq![
                    Tok::EmptyRoster,
                    Tok::Fmt(f),
                    if b {
                        Tok::AutoSort(true)
                    } else {
                        Tok::AutoSort(false)
                    },
                ]);
                assert(steps(init_state(), ts) == Some(target));
            },
            (Some(f), None) => {
                assert(ts =~= seq![Tok::EmptyRoster, Tok::Fmt(f)]);
                assert(steps(init_state(), ts) == Some(target));
            },
            (None, Some(b)) => {
                assert(ts =~= seq![
                    Tok::EmptyRoster,
                    if b {
                        Tok::AutoSort(true)
                    } else {
                        Tok::AutoSort(false)
                    },
                ]);
                assert(steps(init_state(), ts) == Some(target));
            },
            (None, None) => {
                assert(ts =~= seq![Tok::EmptyRoster]);
                assert(steps(init_state(), ts) == Some(target));
            },
        }
    } else {
        match (c.date_fmt, c.sort) {
            (Some(f), Some(b)) => {
                assert(ts =~= seq![
                    Tok::Fmt(f),
                    if b {
                        Tok::AutoSort(true)
                    } else {
                        Tok::AutoSort(false)
                    },
                ]);
                assert(steps(init_state(), ts) == Some(target));
            },
            (Some(f), None) => {
                assert(ts =~= seq![Tok::Fmt(f)]);
                assert(steps(init_state(), ts) == Some(target));
            },
            (None, Some(b)) => {
                assert(ts =~= seq![
                    if b {
                        Tok::AutoSort(true)
                    } else {
                        Tok::AutoSort(false)
                    },
                ]);
                assert(steps(init_state(), ts) == Some(target));
            },
            (None, None) => {
                assert(ts =~= Seq::<Tok>::empty());
                assert(steps(init_state(), ts) == Some(target));
            },
        }
    }
}

/// Entry lines parse back to the entries, appended in order to
/// whatever the state already stands for; none holds a newline.
proof fn lemma_steps_persons(st: PState, es: Seq<PersonV>)
    requires
        filled(st),
    ensures
        steps(st, persons_lines(es).map_values(|l: Seq<char>| tok_of_line(l))) is Some,
        ({
            let r = steps(st, persons_lines(es).map_values(|l: Seq<char>| tok_of_line(l)))->0;
            &&& filled(r)
            &&& eff(r) == eff(st) + es
            &&& r.date_fmt == st.date_fmt
            &&& r.sort == st.sort
        }),
        forall|i: int|
            0 <= i < persons_lines(es).len() ==> line_free(#[trigger] persons_lines(es)[i]),
    decreases es.len(),
{
    lemma_tok_fixed();
    lemma_line_facts();
    reveal_with_fuel(steps, 6);
    let ls = persons_lines(es);
    let ts = ls.map_values(|l: Seq<char>| tok_of_line(l));
    if es.len() == 0 {
        assert(ts =~= Seq::<Tok>::empty());
        assert(eff(st) + es =~= eff(st));
    } else {
        let p = es[0];
        lemma_tok_quoted(name_pre(), p.name);
        lemma_tok_quoted(tz_pre(), p.tz);
        let front = person_lines(p);
        let back = persons_lines(es.drop_first());
        let ft = front.map_values(|l: Seq<char>| tok_of_line(l));
        let bt = back.map_values(|l: Seq<char>| tok_of_line(l));
        assert(ts =~= ft + bt);
        lemma_steps_append(st, ft, bt);
        assert(ft =~= seq![
            Tok::Blank,
            Tok::Head,
            Tok::NameKey(p.name),
            Tok::ZoneKey(p.tz),
        ]);
        let mid = PState {
            entries: eff(st),
            date_fmt: st.date_fmt,
            sort: st.sort,
            cur: Some((Some(p.name), Some(p.tz))),
        };
        assert(steps(st, ft) == Some(mid));
        lemma_steps_persons(mid, es.drop_first());
        let r = steps(mid, bt)->0;
        assert(eff(mid) =~= eff(st).push(p));
        assert(eff(st).push(p) + es.drop_first() =~= eff(st) + es);
        assert forall|i: int| 0 <= i < ls.len() implies line_free(#[trigger] ls[i]) by {
            if i < 4 {
                assert(ls[i] == front[i]);
            } else {
                assert(ls[i] == back[i - 4]);
            }
        }
    }
}

/// Writing a configuration out and reading it back yields the same
/// configuration: the same entries in the same order, and the same
/// optional settings, present or absent exactly as before.
pub proof fn lemma_round_trip(c: ConfigV)
    ensures
        parse_spec(emit_spec(c)) == Some(c),
{
    lemma_steps_header(c);
    lemma_steps_persons(
        PState { entries: Seq::empty(), date_fmt: c.date_fmt, sort: c.sort, cur: None },
        c.entries,
    );
    let ls = emit_lines(c);
    assert forall|i: int| 0 <= i < ls.len() implies line_free(#[trigger] ls[i]) by {
        if i < header_lines(c).len() {
            assert(ls[i] == header_lines(c)[i]);
        } else {
            assert(ls[i] == persons_lines(c.entries)[i - header_lines(c).len()]);
        }
    }
    lemma_split_join(ls);
    let ts = ls.map_values(|l: Seq<char>| tok_of_line(l));
    let ht = header_lines(c).map_values(|l: Seq<char>| tok_of_line(l));
    let pt = persons_lines(c.entries).map_values(|l: Seq<char>| tok_of_line(l));
    assert(ts =~= ht + pt);
    lemma_steps_append(init_state(), ht, pt);
    let st0 = PState { entries: Seq::empty(), date_fmt: c.date_fmt, sort: c.sort, cur: None };
    let r = steps(st0, pt)->0;
    assert(eff(st0) + c.entries =~= c.entries);
    assert(toks_of(emit_spec(c)) == ts);
    assert(finish(r) is Some);
    let parsed = finish(r)->0;
    assert(parsed.entries == eff(r));
    assert(parsed == c);
}

// ---------------------------------------------------------------
// executable emission
// ---------------------------------------------------------------

/// Joining appends per line.
proof fn lemma_join_push(ls: Seq<Seq<char>>, l: Seq<char>)
    ensures
        join_lines(ls.push(l)) == join_lines(ls) + l + seq!['\n'],
    decreases ls.len(),
{
    if ls.len() == 0 {
        assert(ls.push(l)[0] == l);
        assert(ls.push(l).drop_first() =~= Seq::<Seq<char>>::empty());
        assert(join_lines(Seq::<Seq<char>>::empty()) == Seq::<char>::empty());
        assert(ls =~= Seq::<Seq<char>>::empty());
        assert(join_lines(ls.push(l)) =~= join_lines(ls) + l + seq!['\n']);
    } else {
        assert(ls.push(l)[0] == ls[0]);
        assert(ls.push(l).drop_first() =~= ls.drop_first().push(l));
        lemma_join_push(ls.drop_first(), l);
        assert(join_lines(ls.push(l)) == ls[0] + seq!['\n'] + join_lines(
            ls.drop_first().push(l),
        ));
        assert(join_lines(ls.push(l)) == ls[0] + seq!['\n'] + (join_lines(ls.drop_first()) + l
            + seq!['\n']));
        assert(ls[0] + seq!['\n'] + (join_lines(ls.drop_first()) + l + seq!['\n']) =~= (ls[0]
            + seq!['\n'] + join_lines(ls.drop_first())) + l + seq!['\n']);
    }
}

/// Entry lines append per entry.
proof fn lemma_persons_push(es: Seq<PersonV>, p: PersonV)
    ensures
        persons_lines(es.push(p)) == persons_lines(es) + person_lines(p),
    decreases es.len(),
{
    if es.len() == 0 {
        assert(es.push(p)[0] == p);
        assert(es.push(p).drop_first() =~= Seq::<PersonV>::empty());
        assert(persons_lines(Seq::<PersonV>::empty()) == Seq::<Seq<char>>::empty());
        assert(es =~= Seq::<PersonV>::empty());
        assert(persons_lines(es.push(p)) =~= persons_lines(es) + person_lines(p));
    } else {
        assert(es.push(p)[0] == es[0]);
        assert(es.push(p).drop_first() =~= es.drop_first().push(p));
        lemma_persons_push(es.drop_first(), p);
        assert(persons_lines(es.push(p)) == person_lines(es[0]) + (persons_lines(
            es.drop_first(),
        ) + person_lines(p)));
        assert(person_lines(es[0]) + (persons_lines(es.drop_first()) + person_lines(p)) =~= (
        person_lines(es[0]) + persons_lines(es.drop_first())) + person_lines(p));
    }
}

/// Appends the escaped form of `v`.
fn push_escaped(out: &mut Vec<char>, v: &Vec<char>)
    ensures
        final(out)@ == old(out)@ + esc(v@),
{
    let n = v.len();
    let mut i: usize = 0;
    proof {
        assert(out@ =~= old(out)@ + esc(v@.take(0)));
    }
    while i < n
        invariant
            n == v@.len(),
            i <= n,
            out@ == old(out)@ + esc(v@.take(i as int)),
        decreases n - i,
    {
        let c = v[i];
        if c == '\\' {
            out.push('\\');
            out.push('\\');
        } else if c == '"' {
            out.push('\\');
            out.push('"');
        } else if c == '\n' {
            out.push('\\');
            out.push('n');
        } else if c == '\r' {
            out.push('\\');
            out.push('r');
        } else if c == '\t' {
            out.push('\\');
            out.push('t');
        } else {
            out.push(c);
        }
        proof {
            assert(v@.take(i + 1) =~= v@.take(i as int).push(v@[i as int]));
            lemma_esc_push(v@.take(i as int), v@[i as int]);
            assert(out@ =~= old(out)@ + esc(v@.take(i + 1)));
        }
        i += 1;
    }
    proof {
        assert(v@.take(n as int) =~= v@);
    }
}

/// Builds a key line from its opening and its value.
fn quoted_vec(pre: &str, v: &Vec<char>) -> (r: Vec<char>)
    ensures
        r@ == quoted_line(pre@, v@),
{
    let mut r = str_to_chars(pre);
    push_escaped(&mut r, v);
    r.push('"');
    proof {
        assert(r@ =~= pre@ + esc(v@) + seq!['"']);
    }
    r
}

/// The lines of a configuration file, in order.
fn build_lines(c: &TomlConfig) -> (ls: Vec<Vec<char>>)
    ensures
        ls.deep_view() == emit_lines(c@),
{
    let mut ls: Vec<Vec<char>> = Vec::new();
    if c.person.len() == 0 {
        ls.push(str_to_chars("person = []"));
    }
    match &c.date_fmt {
        Some(f) => {
            ls.push(quoted_vec("date_fmt = \"", f));
        },
        None => {},
    }
    match c.sort {
        Some(true) => {
            ls.push(str_to_chars("sort = true"));
        },
        Some(false) => {
            ls.push(str_to_chars("sort = false"));
        },
        None => {},
    }
    proof {
        assert(ls.deep_view() =~~= header_lines(c@));
    }
    let ghost hdr = ls.deep_view();
    let n = c.person.len();
    let mut i: usize = 0;
    proof {
        assert(ls.deep_view() =~= hdr + persons_lines(c@.entries.take(0)));
    }
    while i < n
        invariant
            n == c@.entries.len(),
            i <= n,
            ls.deep_view() == hdr + persons_lines(c@.entries.take(i as int)),
        decreases n - i,
    {
        let p = &c.person[i];
        proof {
            assert(p@ == c@.entries[i as int]);
        }
        let ghost dv0 = ls.deep_view();
        ls.push(Vec::new());
        proof {
            assert(ls.deep_view() =~~= dv0.push(Seq::<char>::empty()));
        }
        let ghost dv1 = ls.deep_view();
        ls.push(str_to_chars("[[person]]"));
        proof {
            assert(ls.deep_view() =~~= dv1.push(person_header_line()));
        }
        let ghost dv2 = ls.deep_view();
        ls.push(quoted_vec("name = \"", &p.name));
        proof {
            assert(ls.deep_view() =~~= dv2.push(quoted_line(name_pre(), p@.name)));
        }
        let ghost dv3 = ls.deep_view();
        ls.push(quoted_vec("tz = \"", &p.tz));
        proof {
            assert(ls.deep_view() =~~= dv3.push(quoted_line(tz_pre(), p@.tz)));
            assert(ls.deep_view() =~~= dv0 + person_lines(c@.entries[i as int]));
            assert(c@.entries.take(i + 1) =~= c@.entries.take(i as int).push(
                c@.entries[i as int],
            ));
            lemma_persons_push(c@.entries.take(i as int), c@.entries[i as int]);
            assert(ls.deep_view() =~~= hdr + persons_lines(c@.entries.take(i + 1)));
        }
        i += 1;
    }
    proof {
        assert(c@.entries.take(n as int) =~= c@.entries);
        assert(ls.deep_view() =~~= emit_lines(c@));
    }
    ls
}

/// Serializes a configuration to the text of its file.
pub fn emit_config(c: &TomlConfig) -> (out: Vec<char>)
    ensures
        out@ == emit_spec(c@),
{
    let ls = build_lines(c);
    let mut out: Vec<char> = Vec::new();
    let n = ls.len();
    let mut i: usize = 0;
    proof {
        assert(out@ =~= join_lines(ls.deep_view().take(0)));
    }
    while i < n
        invariant
            n == ls.deep_view().len(),
            n == ls@.len(),
            i <= n,
            ls.deep_view() == emit_lines(c@),
            out@ == join_lines(ls.deep_view().take(i as int)),
        decreases n - i,
    {
        let line = &ls[i];
        let m = line.len();
        let mut j: usize = 0;
        while j < m
            invariant
                m == line@.len(),
                j <= m,
                out@ == join_lines(ls.deep_view().take(i as int)) + line@.take(j as int),
            decreases m - j,
        {
            out.push(line[j]);
            proof {
                assert(line@.take(j + 1) =~= line@.take(j as int).push(line@[j as int]));
                assert(out@ =~= join_lines(ls.deep_view().take(i as int)) + line@.take(j + 1));
            }
            j += 1;
        }
        out.push('\n');
        proof {
            assert(line@.take(m as int) =~= line@);
            assert(line@ =~= ls.deep_view()[i as int]);
            assert(ls.deep_view().take(i + 1) =~= ls.deep_view().take(i as int).push(
                ls.deep_view()[i as int],
            ));
            lemma_join_push(ls.deep_view().take(i as int), ls.deep_view()[i as int]);
            assert(out@ =~= join_lines(ls.deep_view().take(i + 1)));
        }
        i += 1;
    }
    proof {
        assert(ls.deep_view().take(n as int) =~= ls.deep_view());
    }
    out
}

// ---------------------------------------------------------------
// executable parsing
// ---------------------------------------------------------------

/// Whether two character vectors hold the same characters.
fn chars_eq(a: &Vec<char>, b: &Vec<char>) -> (r: bool)
    ensures
        r == (a@ == b@),
{
    if a.len() != b.len() {
        return false;
    }
    let n = a.len();
    let mut i: usize = 0;
    while i < n
        invariant
            n == a@.len(),
            n == b@.len(),
            i <= n,
            forall|j: int| 0 <= j < i ==> a@[j] == b@[j],
        decreases n - i,
    {
        if a[i] != b[i] {
            return false;
        }
        i += 1;
    }
    proof {
        assert(a@ =~= b@);
    }
    true
}

/// Whether `l` opens with `p`.
fn begins_with_exec(l: &Vec<char>, p: &Vec<char>) -> (r: bool)
    ensures
        r == begins_with(l@, p@),
{
    if l.len() < p.len() {
        return false;
    }
    let n = p.len();
    let mut i: usize = 0;
    while i < n
        invariant
            n == p@.len(),
            n <= l@.len(),
            i <= n,
            forall|j: int| 0 <= j < i ==> l@[j] == p@[j],
        decreases n - i,
    {
        if l[i] != p[i] {
            proof {
                if begins_with(l@, p@) {
                    assert(l@.take(p@.len() as int)[i as int] == p@[i as int]);
                }
            }
            return false;
        }
        i += 1;
    }
    proof {
        assert(l@.take(p@.len() as int) =~= p@);
    }
    true
}

/// Copies the characters of `v` between `a` and `b`.
fn copy_range(v: &Vec<char>, a: usize, b: usize) -> (r: Vec<char>)
    requires
        a <= b <= v@.len(),
    ensures
        r@ == v@.subrange(a as int, b as int),
{
    let mut r: Vec<char> = Vec::new();
    let mut i: usize = a;
    while i < b
        invariant
            a <= i <= b <= v@.len(),
            r@ == v@.subrange(a as int, i as int),
        decreases b - i,
    {
        r.push(v[i]);
        proof {
            assert(v@.subrange(a as int, i + 1) =~= v@.subrange(a as int, i as int).push(
                v@[i as int],
            ));
        }
        i += 1;
    }
    r
}

/// Undoes the escaping of a quoted value.
fn unescape_exec(v: &Vec<char>) -> (r: Option<Vec<char>>)
    ensures
        match r {
            Some(u) => unesc(v@) == Some(u@),
            None => unesc(v@) is None,
        },
{
    let n = v.len();
    let mut out: Vec<char> = Vec::new();
    let mut i: usize = 0;
    proof {
        assert(v@.skip(0) =~= v@);
        assert(out@ =~= Seq::<char>::empty());
    }
    while i < n
        invariant
            n == v@.len(),
            i <= n,
            match unesc(v@.skip(i as int)) {
                Some(rest) => unesc(v@) == Some(out@ + rest),
                None => unesc(v@) is None,
            },
        decreases n - i,
    {
        let ghost tail = v@.skip(i as int);
        let c = v[i];
        proof {
            assert(tail[0] == c);
        }
        if c == '\\' {
            if i + 1 >= n {
                proof {
                    assert(tail.len() == 1);
                }
                return None;
            }
            let c2 = v[i + 1];
            proof {
                assert(tail[1] == c2);
                assert(tail.len() >= 2);
            }
            let ec: char = if c2 == '\\' {
                '\\'
            } else if c2 == '"' {
                '"'
            } else if c2 == 'n' {
                '\n'
            } else if c2 == 'r' {
                '\r'
            } else if c2 == 't' {
                '\t'
            } else {
                proof {
                    assert(unesc(tail) is None);
                }
                return None;
            };
            let ghost o0 = out@;
            out.push(ec);
            proof {
                assert(tail.skip(2) =~= v@.skip(i + 2));
                if unesc(v@.skip(i + 2)) is Some {
                    let rest = unesc(v@.skip(i + 2))->0;
                    assert(unesc(tail) == Some(seq![ec] + rest));
                    assert(o0 + (seq![ec] + rest) =~= o0.push(ec) + rest);
                }
            }
            i += 2;
        } else if c == '"' {
            proof {
                assert(unesc(tail) is None);
            }
            return None;
        } else {
            let ghost o0 = out@;
            out.push(c);
            proof {
                assert(tail.drop_first() =~= v@.skip(i + 1));
                if unesc(v@.skip(i + 1)) is Some {
                    let rest = unesc(v@.skip(i + 1))->0;
                    assert(unesc(tail) == Some(seq![c] + rest));
                    assert(o0 + (seq![c] + rest) =~= o0.push(c) + rest);
                }
            }
            i += 1;
        }
    }
    proof {
        assert(v@.skip(n as int) =~= Seq::<char>::empty());
        assert(unesc(Seq::<char>::empty()) == Some(Seq::<char>::empty()));
        assert(out@ + Seq::<char>::empty() =~= out@);
    }
    Some(out)
}

/// Splits a text into its lines, as `split_lines` does.
fn split_lines_exec(s: &Vec<char>) -> (ls: Vec<Vec<char>>)
    ensures
        ls.deep_view() == split_lines(s@),
{
    let n = s.len();
    let mut ls: Vec<Vec<char>> = Vec::new();
    let mut i: usize = 0;
    proof {
        assert(s@.skip(0) =~= s@);
        assert(ls.deep_view() =~~= Seq::<Seq<char>>::empty());
    }
    while i < n
        invariant
            n == s@.len(),
            i <= n,
            split_lines(s@) == ls.deep_view() + split_lines(s@.skip(i as int)),
        decreases n - i,
    {
        let mut j: usize = i;
        while j < n && s[j] != '\n'
            invariant
                i <= j <= n,
                n == s@.len(),
                forall|k: int| i <= k < j ==> s@[k] != '\n',
            decreases n - j,
        {
            j += 1;
        }
        let line = copy_range(s, i, j);
        let ghost lv = line@;
        proof {
            assert(line_free(lv));
        }
        let ghost dv0 = ls.deep_view();
        ls.push(line);
        proof {
            assert(ls.deep_view() =~~= dv0.push(lv));
        }
        if j < n {
            proof {
                assert(s@[j as int] == '\n');
                assert(s@.skip(i as int) =~= lv + seq!['\n'] + s@.skip(j + 1));
                lemma_split_one(lv, s@.skip(j + 1));
                assert(dv0 + (seq![lv] + split_lines(s@.skip(j + 1))) =~~= dv0.push(lv)
                    + split_lines(s@.skip(j + 1)));
                assert(split_lines(s@) =~~= ls.deep_view() + split_lines(s@.skip(j + 1)));
            }
            i = j + 1;
        } else {
            proof {
                assert(s@.skip(i as int) =~= lv);
                assert(lv.len() > 0);
                lemma_split_last(lv);
                assert(s@.skip(n as int) =~= Seq::<char>::empty());
                assert(split_lines(Seq::<char>::empty()) == Seq::<Seq<char>>::empty());
                assert(dv0 + seq![lv] =~~= dv0.push(lv) + split_lines(s@.skip(n as int)));
                assert(split_lines(s@) =~~= ls.deep_view() + split_lines(s@.skip(n as int)));
            }
            i = n;
        }
    }
    proof {
        assert(s@.skip(n as int) =~= Seq::<char>::empty());
        assert(split_lines(Seq::<char>::empty()) == Seq::<Seq<char>>::empty());
        assert(ls.deep_view() + Seq::<Seq<char>>::empty() =~~= ls.deep_view());
    }
    ls
}

/// Folding one more token.
proof fn lemma_steps_snoc(st: PState, ts: Seq<Tok>, t: Tok)
    ensures
        steps(st, ts.push(t)) == match steps(st, ts) {
            None => None::<PState>,
            Some(s2) => step(s2, t),
        },
{
    assert(ts.push(t) =~= ts + seq![t]);
    lemma_steps_append(st, ts, seq![t]);
    reveal_with_fuel(steps, 3);
    match steps(st, ts) {
        None => {},
        Some(s2) => {
            assert(seq![t].drop_first() =~= Seq::<Tok>::empty());
            assert(steps(s2, seq![t]) == step(s2, t));
        },
    }
}

/// A failing line makes the whole file ill-formed.
proof fn lemma_steps_stuck(ts: Seq<Tok>, i: int, st: PState)
    requires
        0 <= i < ts.len(),
        steps(init_state(), ts.take(i)) == Some(st),
        step(st, ts[i]) is None,
    ensures
        steps(init_state(), ts) is None,
{
    assert(ts.take(i + 1) =~= ts.take(i).push(ts[i]));
    lemma_steps_snoc(init_state(), ts.take(i), ts[i]);
    assert(ts =~= ts.take(i + 1) + ts.skip(i + 1));
    lemma_steps_append(init_state(), ts.take(i + 1), ts.skip(i + 1));
}

/// The view of an optional character vector.
pub open spec fn ov(o: Option<Vec<char>>) -> Option<Seq<char>> {
    match o {
        Some(v) => Some(v@),
        None => None,
    }
}

/// The parser state the executable locals stand for.
pub open spec fn abst(
    entries: Seq<PersonV>,
    df: Option<Seq<char>>,
    so: Option<bool>,
    inp: bool,
    cn: Option<Seq<char>>,
    cz: Option<Seq<char>>,
) -> PState {
    PState {
        entries: entries,
        date_fmt: df,
        sort: so,
        cur: if inp {
            Some((cn, cz))
        } else {
            None
        },
    }
}

/// Reads the quoted value of a key line whose opening is `plen`
/// characters long.
fn read_quoted(line: &Vec<char>, plen: usize) -> (r: Option<Vec<char>>)
    requires
        plen <= line@.len(),
    ensures
        match r {
            Some(v) => line@.len() >= plen + 1 && line@.last() == '"' && unesc(
                line@.subrange(plen as int, line@.len() - 1),
            ) == Some(v@),
            None => line@.len() < plen + 1 || line@.last() != '"' || unesc(
                line@.subrange(plen as int, line@.len() - 1),
            ) is None,
        },
{
    if line.len() <= plen {
        return None;
    }
    if line[line.len() - 1] != '"' {
        return None;
    }
    let mid = copy_range(line, plen, line.len() - 1);
    unescape_exec(&mid)
}

/// Parses the text of a configuration file, as `parse_spec` does.
pub fn parse_config(s: &str) -> (r: Option<TomlConfig>)
    ensures
        match r {
            Some(cfg) => parse_spec(s@) == Some(cfg@),
            None => parse_spec(s@) is None,
        },
{
    let sc = str_to_chars(s);
    let lines = split_lines_exec(&sc);
    let ghost toks = toks_of(s@);
    proof {
        assert(toks == lines.deep_view().map_values(|l: Seq<char>| tok_of_line(l)));
    }
    let pe = str_to_chars("person = []");
    let stt = str_to_chars("sort = true");
    let stf = str_to_chars("sort = false");
    let hd = str_to_chars("[[person]]");
    let dfp = str_to_chars("date_fmt = \"");
    let nmp = str_to_chars("name = \"");
    let tzp = str_to_chars("tz = \"");
    let mut entries: Vec<Person> = Vec::new();
    let mut date_fmt: Option<Vec<char>> = None;
    let mut sort_opt: Option<bool> = None;
    let mut in_person: bool = false;
    let mut cur_name: Option<Vec<char>> = None;
    let mut cur_tz: Option<Vec<char>> = None;
    let n = lines.len();
    let mut i: usize = 0;
    proof {
        assert(toks.take(0) =~= Seq::<Tok>::empty());
        assert(entries.deep_view() =~= Seq::<PersonV>::empty());
    }
    while i < n
        invariant
            n == lines@.len(),
            toks.len() == n,
            i <= n,
            toks == toks_of(s@),
            toks == lines.deep_view().map_values(|l: Seq<char>| tok_of_line(l)),
            pe@ == person_empty_line(),
            stt@ == sort_true_line(),
            stf@ == sort_false_line(),
            hd@ == person_header_line(),
            dfp@ == date_fmt_pre(),
            nmp@ == name_pre(),
            tzp@ == tz_pre(),
            steps(init_state(), toks.take(i as int)) == Some(
                abst(entries.deep_view(), ov(date_fmt), sort_opt, in_person, ov(cur_name), ov(cur_tz)),
            ),
            !in_person ==> cur_name is None && cur_tz is None,
        decreases n - i,
    {
        let ghost stp = abst(
            entries.deep_view(),
            ov(date_fmt),
            sort_opt,
            in_person,
            ov(cur_name),
            ov(cur_tz),
        );
        let line = &lines[i];
        proof {
            assert(line@ =~= lines.deep_view()[i as int]);
            assert(toks[i as int] == tok_of_line(line@));
        }
        let ghost tk = toks[i as int];
        if line.len() == 0 {
            proof {
                assert(tk == Tok::Blank);
                assert(step(stp, tk) == Some(stp));
            }
        } else if chars_eq(line, &pe) {
            if in_person || entries.len() > 0 {
                proof {
                    assert(tk == Tok::EmptyRoster);
                    assert(step(stp, tk) is None);
                    lemma_steps_stuck(toks, i as int, stp);
                }
                return None;
            }
            proof {
                assert(tk == Tok::EmptyRoster);
                assert(step(stp, tk) == Some(stp));
            }
        } else if chars_eq(line, &stt) {
            if in_person {
                proof {
                    assert(tk == Tok::AutoSort(true));
                    assert(step(stp, tk) is None);
                    lemma_steps_stuck(toks, i as int, stp);
                }
                return None;
            }
            sort_opt = Some(true);
            proof {
                assert(tk == Tok::AutoSort(true));
            }
        } else if chars_eq(line, &stf) {
            if in_person {
                proof {
                    assert(tk == Tok::AutoSort(false));
                    assert(step(stp, tk) is None);
                    lemma_steps_stuck(toks, i as int, stp);
                }
                return None;
            }
            sort_opt = Some(false);
            proof {
                assert(tk == Tok::AutoSort(false));
            }
        } else if chars_eq(line, &hd) {
            proof {
                assert(tk == Tok::Head);
            }
            if !in_person {
                in_person = true;
            } else {
                let nm = cur_name;
                let tz = cur_tz;
                cur_name = None;
                cur_tz = None;
                match (nm, tz) {
                    (Some(a), Some(b)) => {
                        let ghost pv = PersonV { name: a@, tz: b@ };
                        let ghost ent0 = entries.deep_view();
                        entries.push(Person { name: a, tz: b });
                        proof {
                            assert(entries.deep_view() =~~= ent0.push(pv));
                        }
                    },
                    _ => {
                        proof {
                            assert(step(stp, tk) is None);
                            lemma_steps_stuck(toks, i as int, stp);
                        }
                        return None;
                    },
                }
            }
        } else if begins_with_exec(line, &dfp) {
            match read_quoted(line, dfp.len()) {
                None => {
                    proof {
                        assert(tk == Tok::Bad);
                        lemma_steps_stuck(toks, i as int, stp);
                    }
                    return None;
                },
                Some(val) => {
                    proof {
                        assert(quoted_val(line@, date_fmt_pre()) == Some(val@));
                        assert(tk == Tok::Fmt(val@));
                    }
                    if in_person {
                        proof {
                            assert(step(stp, tk) is None);
                            lemma_steps_stuck(toks, i as int, stp);
                        }
                        return None;
                    }
                    date_fmt = Some(val);
                },
            }
        } else if begins_with_exec(line, &nmp) {
            match read_quoted(line, nmp.len()) {
                None => {
                    proof {
                        assert(tk == Tok::Bad);
                        lemma_steps_stuck(toks, i as int, stp);
                    }
                    return None;
                },
                Some(val) => {
                    proof {
                        assert(quoted_val(line@, name_pre()) == Some(val@));
                        assert(tk == Tok::NameKey(val@));
                    }
                    if !in_person || cur_name.is_some() {
                        proof {
                            assert(step(stp, tk) is None);
                            lemma_steps_stuck(toks, i as int, stp);
                        }
                        return None;
                    }
                    cur_name = Some(val);
                },
            }
        } else if begins_with_exec(line, &tzp) {
            match read_quoted(line, tzp.len()) {
                None => {
                    proof {
                        assert(tk == Tok::Bad);
                        lemma_steps_stuck(toks, i as int, stp);
                    }
                    return None;
                },
                Some(val) => {
                    proof {
                        assert(quoted_val(line@, tz_pre()) == Some(val@));
                        assert(tk == Tok::ZoneKey(val@));
                    }
                    if !in_person || cur_tz.is_some() {
                        proof {
                            assert(step(stp, tk) is None);
                            lemma_steps_stuck(toks, i as int, stp);
                        }
                        return None;
                    }
                    cur_tz = Some(val);
                },
            }
        } else {
            proof {
                assert(tk == Tok::Bad);
                assert(step(stp, tk) is None);
                lemma_steps_stuck(toks, i as int, stp);
            }
            return None;
        }
        proof {
            assert(step(stp, tk) == Some(
                abst(
                    entries.deep_view(),
                    ov(date_fmt),
                    sort_opt,
                    in_person,
                    ov(cur_name),
                    ov(cur_tz),
                ),
            ));
            assert(toks.take(i + 1) =~= toks.take(i as int).push(tk));
            lemma_steps_snoc(init_state(), toks.take(i as int), tk);
        }
        i += 1;
    }
    proof {
        assert(toks.take(n as int) =~= toks);
    }
    let ghost end_state = abst(
        entries.deep_view(),
        ov(date_fmt),
        sort_opt,
        in_person,
        ov(cur_name),
        ov(cur_tz),
    );
    if !in_person {
        let cfg = TomlConfig { person: entries, date_fmt: date_fmt, sort: sort_opt };
        proof {
            assert(finish(end_state) == Some(cfg@));
        }
        return Some(cfg);
    }
    let nm = cur_name;
    let tz = cur_tz;
    match (nm, tz) {
        (Some(a), Some(b)) => {
            let ghost pv = PersonV { name: a@, tz: b@ };
            let ghost ent0 = entries.deep_view();
            entries.push(Person { name: a, tz: b });
            proof {
                assert(entries.deep_view() =~~= ent0.push(pv));
            }
            let cfg = TomlConfig { person: entries, date_fmt: date_fmt, sort: sort_opt };
            proof {
                assert(finish(end_state) == Some(cfg@));
            }
            Some(cfg)
        },
        _ => {
            proof {
                assert(finish(end_state) is None);
            }
            None
        },
    }
}

} // verus!
