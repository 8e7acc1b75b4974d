//! The application facade: one loaded configuration store and the
//! three operations the command line exposes — add, remove, list —
//! together with load-or-default construction and serialization for
//! persisting.  All file and clock I/O stays with the caller: the
//! store is built from the file's text and hands back the text to
//! write and the lines to print.

use vstd::prelude::*;
use crate::codec::{emit_config, emit_spec, parse_config, parse_spec};
use crate::config::{
    add_entries, default_fmt, remove_entries, sort_by_name, sorted_by_name, spec_should_sort,
    ConfigV, TomlConfig,
};
use crate::person::{Person, PersonV};
use crate::render::{
    format_in_tz, invalid_line, invalid_line_exec, no_entries_exec, no_entries_line, now_utc,
    pad_exec, pad_to, parse_tz, tz_valid,
};

verus! {

/// The running application: the configuration loaded for this
/// invocation.
pub struct App {
    pub config: TomlConfig,
}

/// The mathematical value of an `App`.
pub struct AppV {
    pub config: ConfigV,
}

impl View for App {
    type V = AppV;

    open spec fn view(&self) -> AppV {
        AppV { config: self.config@ }
    }
}

/// The configuration a fresh start gets: no entries, the default
/// format string, auto-sort enabled.
pub open spec fn is_default_config(c: ConfigV) -> bool {
    &&& c.entries.len() == 0
    &&& c.date_fmt == Some(default_fmt())
    &&& c.sort == Some(true)
}

/// The longest name in the roster; zero when it is empty.
pub open spec fn max_name_len(es: Seq<PersonV>) -> int
    decreases es.len(),
{
    if es.len() == 0 {
        0
    } else {
        let m = max_name_len(es.drop_last());
        if es.last().name.len() >= m {
            es.last().name.len() as int
        } else {
            m
        }
    }
}

/// The display column width: the longest name plus four columns of
/// padding, within the machine's bounds.
pub open spec fn width_spec(es: Seq<PersonV>) -> int {
    if max_name_len(es) + 4 <= usize::MAX {
        max_name_len(es) + 4
    } else {
        max_name_len(es)
    }
}

/// Every name fits in the column width.
pub proof fn lemma_max_name_len(es: Seq<PersonV>, i: int)
    requires
        0 <= i < es.len(),
    ensures
        es[i].name.len() <= max_name_len(es),
    decreases es.len(),
{
    if i < es.len() - 1 {
        lemma_max_name_len(es.drop_last(), i);
        assert(es.drop_last()[i] == es[i]);
    }
}

/// Computes the display column width of a roster.
fn width_of(v: &Vec<Person>) -> (w: usize)
    ensures
        w as int == width_spec(v.deep_view()),
{
    let n = v.len();
    let mut m: usize = 0;
    let mut i: usize = 0;
    proof {
        assert(v.deep_view().take(0) =~= Seq::<PersonV>::empty());
    }
    while i < n
        invariant
            n == v.deep_view().len(),
            n == v@.len(),
            i <= n,
            m as int == max_name_len(v.deep_view().take(i as int)),
        decreases n - i,
    {
        let l = v[i].name.len();
        proof {
            assert(v.deep_view().take(i + 1).drop_last() =~= v.deep_view().take(i as int));
            assert(v.deep_view().take(i + 1).last() == v.deep_view()[i as int]);
            assert(v.deep_view()[i as int].name == v@[i as int]@.name);
        }
        if l > m {
            m = l;
        }
        i += 1;
    }
    proof {
        assert(v.deep_view().take(n as int) =~= v.deep_view());
    }
    if m <= usize::MAX - 4 {
        m + 4
    } else {
        m
    }
}

impl App {
    /// Builds the store from the configuration file's text: absent
    /// file or unparsable text give the default configuration; a
    /// well-formed text gives exactly what it says.
    pub fn new(contents: Option<&str>) -> (app: App)
        ensures
            match contents {
                Some(s) => match parse_spec(s@) {
                    Some(c) => app@.config == c,
                    None => is_default_config(app@.config),
                },
                None => is_default_config(app@.config),
            },
    {
        match contents {
            Some(s) => match parse_config(s) {
                Some(cfg) => App { config: cfg },
                None => App { config: TomlConfig::empty() },
            },
            None => App { config: TomlConfig::empty() },
        }
    }

    /// Adds a person to the roster, re-sorting when auto-sort is
    /// enabled.
    pub fn add(&mut self, p: Person)
        ensures
            final(self)@.config.entries == add_entries(old(self)@.config, p@),
            final(self)@.config.date_fmt == old(self)@.config.date_fmt,
            final(self)@.config.sort == old(self)@.config.sort,
            spec_should_sort(old(self)@.config) ==> sorted_by_name(final(self)@.config.entries),
    {
        self.config.add(p);
    }

    /// Removes the first person whose name matches up to ASCII case,
    /// if any, re-sorting when auto-sort is enabled.
    pub fn rm(&mut self, name: &str)
        ensures
            final(self)@.config.entries == remove_entries(old(self)@.config, name@),
            final(self)@.config.date_fmt == old(self)@.config.date_fmt,
            final(self)@.config.sort == old(self)@.config.sort,
            spec_should_sort(old(self)@.config) ==> sorted_by_name(final(self)@.config.entries),
    {
        self.config.remove(name);
    }

    /// Serializes the configuration to the text of its file.
    pub fn write(&self) -> (out: Vec<char>)
        ensures
            out@ == emit_spec(self@.config),
    {
        emit_config(&self.config)
    }

    /// The lines a listing prints.  An empty roster yields exactly
    /// the empty-roster notice.  Otherwise the roster is first
    /// sorted when auto-sort is enabled, and each entry yields one
    /// line: a resolvable timezone gives the padded name followed by
    /// the rendered time, an unresolvable one gives the
    /// invalid-timezone notice.
    pub fn list(&mut self) -> (lines: Vec<Vec<char>>)
        ensures
            old(self)@.config.entries.len() == 0 ==> final(self)@ == old(self)@
                && lines.deep_view() == seq![no_entries_line()],
            old(self)@.config.entries.len() > 0 ==> ({
                let shown = if spec_should_sort(old(self)@.config) {
                    sort_by_name(old(self)@.config.entries)
                } else {
                    old(self)@.config.entries
                };
                let w = width_spec(shown);
                &&& final(self)@.config.entries == shown
                &&& final(self)@.config.date_fmt == old(self)@.config.date_fmt
                &&& final(self)@.config.sort == old(self)@.config.sort
                &&& lines.deep_view().len() == shown.len()
                &&& forall|i: int|
                    0 <= i < shown.len() && tz_valid(shown[i].tz) ==> (
                    #[trigger] lines.deep_view()[i]).len() >= w && lines.deep_view()[i].take(w)
                        == pad_to(shown[i].name, w)
                &&& forall|i: int|
                    0 <= i < shown.len() && !tz_valid(shown[i].tz)
                        ==> #[trigger] lines.deep_view()[i] == invalid_line(
                        shown[i].tz,
                        shown[i].name,
                    )
            }),
    {
        if self.config.person.len() == 0 {
            let mut ls: Vec<Vec<char>> = Vec::new();
            ls.push(no_entries_exec());
            proof {
                assert(ls.deep_view() =~~= seq![no_entries_line()]);
            }
            return ls;
        }
        if self.config.should_sort() {
            self.config.sort();
        }
        let ghost shown: Seq<PersonV> = self@.config.entries;
        let w = width_of(&self.config.person);
        let dflt = crate::config::default_fmt_chars();
        let fmt: &Vec<char> = match &self.config.date_fmt {
            Some(f) => f,
            None => &dflt,
        };
        let now = now_utc();
        let mut lines: Vec<Vec<char>> = Vec::new();
        let n = self.config.person.len();
        let mut i: usize = 0;
        let ghost frozen = *self;
        while i < n
            invariant
                *self == frozen,
                n == self@.config.entries.len(),
                n == self.config.person@.len(),
                shown == self@.config.entries,
                w as int == width_spec(shown),
                i <= n,
                lines.deep_view().len() == i,
                forall|j: int|
                    0 <= j < i && tz_valid(shown[j].tz) ==> (
                    #[trigger] lines.deep_view()[j]).len() >= w && lines.deep_view()[j].take(
                        w as int,
                    ) == pad_to(shown[j].name, w as int),
                forall|j: int|
                    0 <= j < i && !tz_valid(shown[j].tz)
                        ==> #[trigger] lines.deep_view()[j] == invalid_line(
                        shown[j].tz,
                        shown[j].name,
                    ),
            decreases n - i,
        {
            let p = &self.config.person[i];
            proof {
                assert(p@ == shown[i as int]);
            }
            let line: Vec<char> = match parse_tz(&p.tz) {
                Some(tz) => {
                    let mut t = format_in_tz(&now, &tz, fmt);
                    let mut l = pad_exec(&p.name, w);
                    let ghost pad = l@;
                    l.append(&mut t);
                    proof {
                        lemma_max_name_len(shown, i as int);
                        assert(pad.len() == w);
                        assert(l@.take(w as int) =~= pad);
                    }
                    l
                },
                None => invalid_line_exec(&p.tz, &p.name),
            };
            let ghost lv = line@;
            let ghost dv0 = lines.deep_view();
            lines.push(line);
            proof {
                assert(lines.deep_view() =~~= dv0.push(lv));
            }
            i += 1;
        }
        lines
    }
}

} // verus!
