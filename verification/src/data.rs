use vstd::prelude::*;
use vstd::string::StrSliceExecFns;
use crate::text::{
    chars_of, find_char_in, find_first, is_white_space, lemma_find_first, str_equal, trim,
    trim_range,
};

verus! {

broadcast use vstd::string::group_string_axioms;

/// A setting: its section, its key and its value.
pub type Setting = (Seq<char>, Seq<char>, Seq<char>);

/// The value of the first setting with this section and key.
pub open spec fn lookup(settings: Seq<Setting>, section: Seq<char>, key: Seq<char>) -> Option<Seq<char>>
    decreases settings.len(),
{
    if settings.len() == 0 {
        None
    } else if settings[0].0 == section && settings[0].1 == key {
        Some(settings[0].2)
    } else {
        lookup(settings.drop_first(), section, key)
    }
}

/// A setting reads back: after setting `key` in `section`, looking it up gives the value of its
/// first setting, which is `value` unless it was set before; every other key looks up as before.
pub proof fn lemma_lookup_after_set(
    settings: Seq<Setting>,
    section: Seq<char>,
    key: Seq<char>,
    value: Seq<char>,
    other_section: Seq<char>,
    other_key: Seq<char>,
)
    ensures
        lookup(settings.push((section, key, value)), section, key) == (match lookup(settings, section, key) {
            Some(v) => Some(v),
            None => Some(value),
        }),
        other_section != section || other_key != key ==> lookup(
            settings.push((section, key, value)),
            other_section,
            other_key,
        ) == lookup(settings, other_section, other_key),
    decreases settings.len(),
{
    let pushed = settings.push((section, key, value));
    if settings.len() > 0 {
        assert(pushed[0] == settings[0]);
        assert(pushed.drop_first() =~= settings.drop_first().push((section, key, value)));
        lemma_lookup_after_set(settings.drop_first(), section, key, value, other_section, other_key);
    } else {
        assert(pushed[0] == (section, key, value));
        assert(pushed.drop_first() =~= Seq::<Setting>::empty());
        assert(lookup(Seq::<Setting>::empty(), other_section, other_key) is None);
    }
}

/// The pieces of `s` between line feeds; a text ending in a line feed has an empty last piece.
pub open spec fn lines_of(s: Seq<char>) -> Seq<Seq<char>>
    decreases s.len(),
{
    match find_first(s, '\n') {
        Some(i) => {
            proof {
                lemma_find_first(s, '\n');
            }
            seq![s.subrange(0, i)] + lines_of(s.subrange(i + 1, s.len() as int))
        },
        None => seq![s],
    }
}

/// How one line changes the current section and the settings read so far. Blank lines and
/// lines starting with `#` are skipped; `[name]` starts a section; `key = value` adds a
/// setting (both sides trimmed); anything else is skipped.
pub open spec fn read_line(state: (Seq<char>, Seq<Setting>), line: Seq<char>) -> (Seq<char>, Seq<Setting>) {
    let l = trim(line);
    let section = state.0;
    if l.len() == 0 || l[0] == '#' {
        state
    } else if l.len() >= 2 && l[0] == '[' && l.last() == ']' {
        (l.subrange(1, l.len() - 1), state.1)
    } else {
        match find_first(l, '=') {
            Some(p) => (
                section,
                state.1.push((section, trim(l.subrange(0, p)), trim(l.subrange(p + 1, l.len() as int)))),
            ),
            None => state,
        }
    }
}

/// The state after reading `lines` in order.
pub open spec fn read_lines(state: (Seq<char>, Seq<Setting>), lines: Seq<Seq<char>>) -> (Seq<char>, Seq<Setting>)
    decreases lines.len(),
{
    if lines.len() == 0 {
        state
    } else {
        read_lines(read_line(state, lines[0]), lines.drop_first())
    }
}

/// The settings that a text holds, read line by line, starting outside any section.
pub open spec fn parse_settings(content: Seq<char>) -> Seq<Setting> {
    read_lines((Seq::empty(), Seq::empty()), lines_of(content)).1
}

/// The text of `settings` when the previous line belonged to section `current`: a section
/// change is marked by a blank line (unless nothing was written yet) and a `[section]` line
/// (unless the new section is unnamed); each setting is a `key = value` line.
pub open spec fn settings_text_from(settings: Seq<Setting>, current: Seq<char>) -> Seq<char>
    decreases settings.len(),
{
    if settings.len() == 0 {
        seq![]
    } else {
        let s = settings[0];
        let header = if s.0 != current {
            (if current.len() > 0 {
                seq!['\n']
            } else {
                seq![]
            }) + (if s.0.len() > 0 {
                seq!['['] + s.0 + seq![']', '\n']
            } else {
                seq![]
            })
        } else {
            seq![]
        };
        header + s.1 + seq![' ', '=', ' '] + s.2 + seq!['\n'] + settings_text_from(
            settings.drop_first(),
            s.0,
        )
    }
}

/// The text that holds `settings`, starting outside any section.
pub open spec fn settings_text(settings: Seq<Setting>) -> Seq<char> {
    settings_text_from(settings, Seq::empty())
}

/// Whether `s` has no line feed.
pub open spec fn single_line(s: Seq<char>) -> bool {
    forall|i: int| 0 <= i < s.len() ==> s[i] != '\n'
}

/// Whether `s` neither starts nor ends with white space.
pub open spec fn no_outer_space(s: Seq<char>) -> bool {
    s.len() == 0 || (!is_white_space(s[0]) && !is_white_space(s.last()))
}

/// Whether a setting reads back from its line: no line feeds, key and value without outer
/// white space, no `=` in the key, a key that does not start like a comment, and no line
/// that looks like a section (a key starting with `[` and a value ending with `]`).
pub open spec fn writable_setting(s: Setting) -> bool {
    &&& single_line(s.0)
    &&& single_line(s.1)
    &&& single_line(s.2)
    &&& no_outer_space(s.1)
    &&& no_outer_space(s.2)
    &&& forall|i: int| 0 <= i < s.1.len() ==> s.1[i] != '='
    &&& s.1.len() > 0 ==> s.1[0] != '#'
    &&& s.1.len() > 0 && s.1[0] == '[' ==> s.2.len() == 0 || s.2.last() != ']'
}

/// Whether no setting of the unnamed section follows one of a named section, starting from
/// section `current`.
pub open spec fn sections_in_order(settings: Seq<Setting>, current: Seq<char>) -> bool
    decreases settings.len(),
{
    settings.len() == 0 || ((current.len() > 0 ==> settings[0].0.len() > 0) && sections_in_order(
        settings.drop_first(),
        settings[0].0,
    ))
}

struct Entry {
    section: String,
    key: String,
    value: String,
}

/// Settings grouped in sections, as in a small INI-like text file.
pub struct Dat {
    entries: Vec<Entry>,
}

impl View for Dat {
    /// The settings in the order they were set.
    type V = Seq<Setting>;

    closed spec fn view(&self) -> Seq<Setting> {
        self.entries@.map_values(|e: Entry| (e.section@, e.key@, e.value@))
    }
}

impl Dat {
    /// No settings.
    pub fn new() -> (dat: Self)
        ensures
            dat@ == Seq::<Setting>::empty(),
    {
        let dat = Self { entries: Vec::new() };
        proof {
            assert(dat@ =~= Seq::<Setting>::empty());
        }
        dat
    }

    /// Adds a setting after the others. An earlier setting of the same key stays first.
    pub fn set(&mut self, section: &str, key: &str, value: &str)
        ensures
            final(self)@ == old(self)@.push((section@, key@, value@)),
    {
        self.entries.push(
            Entry { section: section.to_owned(), key: key.to_owned(), value: value.to_owned() },
        );
        proof {
            assert(final(self)@ =~= old(self)@.push((section@, key@, value@)));
        }
    }

    /// The value of the first setting with this section and key.
    pub fn get(&self, section: &str, key: &str) -> (value: Option<&str>)
        ensures
            match lookup(self@, section@, key@) {
                Some(v) => value matches Some(s) && s@ == v,
                None => value is None,
            },
    {
        let n = self.entries.len();
        let mut i: usize = 0;
        proof {
            assert(self@.subrange(0, n as int) =~= self@);
        }
        while i < n
            invariant
                n == self.entries@.len(),
                i <= n,
                lookup(self@, section@, key@) == lookup(self@.subrange(i as int, n as int), section@, key@),
            decreases n - i,
        {
            let e = &self.entries[i];
            proof {
                let rest = self@.subrange(i as int, n as int);
                assert(rest[0] == (e.section@, e.key@, e.value@));
                assert(rest.drop_first() =~= self@.subrange(i + 1, n as int));
            }
            if str_equal(e.section.as_str(), section) && str_equal(e.key.as_str(), key) {
                return Some(e.value.as_str());
            }
            i = i + 1;
        }
        None
    }

    /// The text of the settings, as `write` stores it.
    pub fn to_text(&self) -> (text: String)
        ensures
            text@ == settings_text(self@),
    {
        let mut out = String::new();
        let mut current: &str = "";
        proof {
            reveal_strlit("");
            reveal_strlit("\n");
            reveal_strlit("[");
            reveal_strlit("]\n");
            reveal_strlit(" = ");
            assert(""@ =~= Seq::<char>::empty());
            assert("\n"@ =~= seq!['\n']);
            assert("["@ =~= seq!['[']);
            assert("]\n"@ =~= seq![']', '\n']);
            assert(" = "@ =~= seq![' ', '=', ' ']);
            assert(self@.skip(0) =~= self@);
        }
        let n = self.entries.len();
        let mut i: usize = 0;
        while i < n
            invariant
                n == self.entries@.len(),
                i <= n,
                settings_text(self@) == out@ + settings_text_from(self@.skip(i as int), current@),
            decreases n - i,
        {
            let e = &self.entries[i];
            let ghost rest = self@.skip(i as int);
            let ghost before = out@;
            proof {
                assert(rest[0] == (e.section@, e.key@, e.value@));
                assert(rest.drop_first() =~= self@.skip(i + 1));
            }
            let ghost cur0 = current@;
            proof {
                reveal_strlit("\n");
                reveal_strlit("[");
                reveal_strlit("]\n");
                reveal_strlit(" = ");
                assert("\n"@ =~= seq!['\n']);
                assert("["@ =~= seq!['[']);
                assert("]\n"@ =~= seq![']', '\n']);
                assert(" = "@ =~= seq![' ', '=', ' ']);
            }
            if !str_equal(e.section.as_str(), current) {
                if !current.is_empty() {
                    out.append("\n");
                }
                if !e.section.as_str().is_empty() {
                    out.append("[");
                    out.append(e.section.as_str());
                    out.append("]\n");
                }
                current = e.section.as_str();
            }
            proof {
                assert(current@ == e.section@);
            }
            out.append(e.key.as_str());
            out.append(" = ");
            out.append(e.value.as_str());
            out.append("\n");
            proof {
                let s0 = rest[0];
                let header = if s0.0 != cur0 {
                    (if cur0.len() > 0 {
                        seq!['\n']
                    } else {
                        seq![]
                    }) + (if s0.0.len() > 0 {
                        seq!['['] + s0.0 + seq![']', '\n']
                    } else {
                        seq![]
                    })
                } else {
                    seq![]
                };
                assert(out@ =~= before + header + s0.1 + seq![' ', '=', ' '] + s0.2 + seq!['\n']);
                assert(settings_text_from(rest, cur0) == header + s0.1 + seq![' ', '=', ' '] + s0.2
                    + seq!['\n'] + settings_text_from(rest.drop_first(), s0.0));
            }
            i = i + 1;
        }
        proof {
            assert(self@.skip(n as int) =~= Seq::<Setting>::empty());
        }
        out
    }

    /// Reads one line, `chars[a..b]` of `content`, into the current section and the settings.
    fn read_line_into(
        &mut self,
        section: &mut String,
        content: &str,
        chars: &Vec<char>,
        a: usize,
        b: usize,
    )
        requires
            chars@ == content@,
            a <= b <= chars@.len(),
        ensures
            (final(section)@, final(self)@) == read_line((old(section)@, old(self)@), chars@.subrange(a as int, b as int)),
    {
        let ghost line = chars@.subrange(a as int, b as int);
        let (ta, tb) = trim_range(chars, a, b);
        let ghost l = trim(line);
        proof {
            assert(l == chars@.subrange(ta as int, tb as int));
        }
        if ta == tb || chars[ta] == '#' {
            proof {
                if ta < tb {
                    assert(l[0] == chars@[ta as int]);
                }
            }
            return;
        }
        proof {
            assert(l[0] == chars@[ta as int]);
            assert(l.last() == chars@[tb - 1]);
        }
        if tb - ta >= 2 && chars[ta] == '[' && chars[tb - 1] == ']' {
            let name = content.substring_char(ta + 1, tb - 1);
            *section = name.to_owned();
            proof {
                assert(section@ =~= l.subrange(1, l.len() - 1));
            }
            return;
        }
        match find_char_in(chars, ta, tb, '=') {
            None => {
                proof {
                    assert(chars@.subrange(ta as int, tb as int) == l);
                }
            },
            Some(p) => {
                let (ka, kb) = trim_range(chars, ta, p);
                let (va, vb) = trim_range(chars, p + 1, tb);
                proof {
                    assert(l.subrange(0, p - ta) =~= chars@.subrange(ta as int, p as int));
                    assert(l.subrange(p - ta + 1, l.len() as int) =~= chars@.subrange(p + 1, tb as int));
                }
                let key = content.substring_char(ka, kb);
                let value = content.substring_char(va, vb);
                self.set(section.as_str(), key, value);
            },
        }
    }

    /// Reads settings from text: `[section]` lines start a section, `key = value` lines add a
    /// setting to the current section, blank lines and `#` comments are skipped.
    pub fn parse(content: &str) -> (dat: Dat)
        ensures
            dat@ == parse_settings(content@),
    {
        let chars = chars_of(content);
        let n = chars.len();
        let mut dat = Dat::new();
        let mut section = String::new();
        let mut start: usize = 0;
        proof {
            assert(chars@.subrange(0, n as int) =~= content@);
        }
        loop
            invariant
                chars@ == content@,
                n == chars@.len(),
                start <= n,
                parse_settings(content@) == read_lines(
                    (section@, dat@),
                    lines_of(chars@.subrange(start as int, n as int)),
                ).1,
            decreases n - start,
        {
            let ghost rest = chars@.subrange(start as int, n as int);
            let newline = find_char_in(&chars, start, n, '\n');
            match newline {
                None => {
                    proof {
                        assert(lines_of(rest) == seq![rest]);
                        assert(seq![rest].drop_first() =~= Seq::<Seq<char>>::empty());
                    }
                    let ghost before = (section@, dat@);
                    dat.read_line_into(&mut section, content, &chars, start, n);
                    proof {
                        assert(rest =~= chars@.subrange(start as int, n as int));
                        let after = read_line(before, rest);
                        assert(read_lines(after, seq![rest].drop_first()) == after);
                        assert(read_lines(before, seq![rest]) == after);
                    }
                    return dat;
                },
                Some(p) => {
                    proof {
                        let i = p - start;
                        assert(find_first(rest, '\n') == Some(i));
                        assert(rest.subrange(0, i) =~= chars@.subrange(start as int, p as int));
                        assert(rest.subrange(i + 1, rest.len() as int) =~= chars@.subrange(p + 1, n as int));
                        let tail = lines_of(chars@.subrange(p + 1, n as int));
                        let ls = seq![chars@.subrange(start as int, p as int)] + tail;
                        assert(lines_of(rest) == ls);
                        assert(ls[0] == chars@.subrange(start as int, p as int));
                        assert(ls.drop_first() =~= tail);
                    }
                    dat.read_line_into(&mut section, content, &chars, start, p);
                    start = p + 1;
                },
            }
        }
    }
}

} // verus!
