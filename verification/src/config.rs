//! The system configuration: sections of named values (text, integers, floating-point
//! numbers, booleans), their conversions, the defaults, validation, and lookups by
//! `section.key`.
use vstd::prelude::*;
use crate::text::{
    ascii_lower, chars_of, decimal, find_from, owned, parse_i64, parse_i64_chars, push_char,
    same_text, signed_decimal, lemma_find_from, string_of_range, u64_to_decimal, i64_to_decimal, find_char,
};
use crate::pipe::lower_seq;

verus! {

/// What the configuration logic reads of a floating-point value: its text, the integer
/// it truncates to, and whether it differs from zero.
#[derive(Debug)]
pub struct FloatValue {
    /// The text `f64::to_string` gives.
    pub text: String,
    /// The value cast to `i64` (saturating, NaN as 0).
    pub truncated: i64,
    /// Whether the value is not equal to 0.0.
    pub nonzero: bool,
}

/// One configuration value.
#[derive(Debug)]
pub enum ConfigValue {
    String(String),
    Integer(i64),
    Float(FloatValue),
    Boolean(bool),
}

/// The text of a value.
pub open spec fn value_text(v: ConfigValue) -> Seq<char> {
    match v {
        ConfigValue::String(s) => s@,
        ConfigValue::Integer(i) => signed_decimal(i as int),
        ConfigValue::Float(f) => f.text@,
        ConfigValue::Boolean(b) => if b { "true"@ } else { "false"@ },
    }
}

/// The integer a value reads as, if any.
pub open spec fn value_int(v: ConfigValue) -> Option<i64> {
    match v {
        ConfigValue::Integer(i) => Some(i),
        ConfigValue::String(s) => match parse_i64(s@) {
            Some(n) => Some(n as i64),
            None => None,
        },
        ConfigValue::Float(f) => Some(f.truncated),
        ConfigValue::Boolean(b) => Some(if b { 1i64 } else { 0i64 }),
    }
}

/// The boolean a text reads as, ignoring case: `true`, `yes`, `1`, `on` and `false`,
/// `no`, `0`, `off`.
pub open spec fn text_bool(s: Seq<char>) -> Option<bool> {
    let l = lower_seq(s);
    if l == "true"@ || l == "yes"@ || l == "1"@ || l == "on"@ {
        Some(true)
    } else if l == "false"@ || l == "no"@ || l == "0"@ || l == "off"@ {
        Some(false)
    } else {
        None
    }
}

/// Law: a text value reads as a boolean by its word, whatever the case of its ASCII
/// letters: `true`, `yes`, `1`, `on` read as true, `false`, `no`, `0`, `off` as false,
/// and any other text reads as no boolean.
pub proof fn lemma_bool_words(v: ConfigValue)
    ensures
        v matches ConfigValue::String(s) ==> {
            let l = Seq::new(s@.len(), |i: int| ascii_lower(s@[i]));
            &&& value_bool(v) == Some(true) <==> (l == "true"@ || l == "yes"@ || l == "1"@ || l == "on"@)
            &&& value_bool(v) == Some(false) <==> (l == "false"@ || l == "no"@ || l == "0"@ || l == "off"@)
            &&& value_bool(v) is None <==> !(l == "true"@ || l == "yes"@ || l == "1"@ || l == "on"@
                || l == "false"@ || l == "no"@ || l == "0"@ || l == "off"@)
        },
{
    if let ConfigValue::String(s) = v {
        assert(Seq::new(s@.len(), |i: int| ascii_lower(s@[i])) =~= lower_seq(s@));
        reveal_strlit("true");
        reveal_strlit("yes");
        reveal_strlit("1");
        reveal_strlit("on");
        reveal_strlit("false");
        reveal_strlit("no");
        reveal_strlit("0");
        reveal_strlit("off");
        let l = lower_seq(s@);
        if l == "true"@ || l == "yes"@ || l == "1"@ || l == "on"@ {
            assert(!(l == "false"@ || l == "no"@ || l == "0"@ || l == "off"@)) by {
                if l == "false"@ || l == "no"@ || l == "0"@ || l == "off"@ {
                    assert(l.len() == 1 ==> l[0] == '1' || l[0] == '0');
                    assert(l.len() == 2 ==> l[1] == 'n' || l[1] == 'o');
                    assert(l.len() == 3 ==> l[0] == 'y' || l[0] == 'o');
                }
            }
        }
    }
}

/// The boolean a value reads as, if any.
pub open spec fn value_bool(v: ConfigValue) -> Option<bool> {
    match v {
        ConfigValue::Boolean(b) => Some(b),
        ConfigValue::String(s) => text_bool(s@),
        ConfigValue::Integer(i) => Some(i != 0),
        ConfigValue::Float(f) => Some(f.nonzero),
    }
}

/// Lower-cases the ASCII letters of a text.
fn lower_text(s: &str) -> (r: String)
    ensures
        r@ == lower_seq(s@),
{
    let cs = chars_of(s);
    let mut r = String::new();
    let mut i: usize = 0;
    while i < cs.len()
        invariant
            i <= cs.len(),
            cs@ == s@,
            r@ == Seq::new(i as nat, |k: int| ascii_lower(cs@[k])),
        decreases cs.len() - i,
    {
        let c = cs[i];
        let l = if 'A' <= c && c <= 'Z' {
            let b: u8 = (c as u32) as u8;
            (b + 32) as char
        } else {
            c
        };
        push_char(&mut r, l);
        i = i + 1;
        assert(r@ =~= Seq::new(i as nat, |k: int| ascii_lower(cs@[k])));
    }
    r
}

impl ConfigValue {
    /// The value as text: always present.
    pub fn as_string(&self) -> (r: Option<String>)
        ensures
            r matches Some(s) && s@ == value_text(*self),
    {
        match self {
            ConfigValue::String(s) => Some(owned(s.as_str())),
            ConfigValue::Integer(i) => Some(i64_to_decimal(*i)),
            ConfigValue::Float(f) => Some(owned(f.text.as_str())),
            ConfigValue::Boolean(b) => {
                if *b {
                    Some(String::from_str("true"))
                } else {
                    Some(String::from_str("false"))
                }
            },
        }
    }

    /// The value as an integer: text is parsed as `i64`, a float truncated, a boolean
    /// read as 1 or 0.
    pub fn as_int(&self) -> (r: Option<i64>)
        ensures
            r == value_int(*self),
    {
        match self {
            ConfigValue::Integer(i) => Some(*i),
            ConfigValue::String(s) => {
                let cs = chars_of(s.as_str());
                assert(cs@.subrange(0, cs@.len() as int) =~= cs@);
                parse_i64_chars(&cs, 0, cs.len())
            },
            ConfigValue::Float(f) => Some(f.truncated),
            ConfigValue::Boolean(b) => Some(if *b { 1 } else { 0 }),
        }
    }

    /// The value as a boolean: text by its word, numbers by whether they differ from
    /// zero.
    pub fn as_bool(&self) -> (r: Option<bool>)
        ensures
            r == value_bool(*self),
    {
        match self {
            ConfigValue::Boolean(b) => Some(*b),
            ConfigValue::String(s) => {
                let l = lower_text(s.as_str());
                let t = l.as_str();
                if same_text(t, "true") || same_text(t, "yes") || same_text(t, "1") || same_text(
                    t,
                    "on",
                ) {
                    Some(true)
                } else if same_text(t, "false") || same_text(t, "no") || same_text(t, "0")
                    || same_text(t, "off") {
                    Some(false)
                } else {
                    None
                }
            },
            ConfigValue::Integer(i) => Some(*i != 0),
            ConfigValue::Float(f) => Some(f.nonzero),
        }
    }
}

/// Errors of the configuration.
#[derive(Debug)]
pub enum ConfigError {
    FileRead(String),
    FileWrite(String),
    Parse(String),
    Serialize(String),
    Validation(String),
}

impl ConfigError {
    /// The text of the error.
    pub fn message(&self) -> (m: String)
        ensures
            m@ == match self {
                ConfigError::FileRead(s) => "文件读取错误: "@ + s@,
                ConfigError::FileWrite(s) => "文件写入错误: "@ + s@,
                ConfigError::Parse(s) => "配置解析错误: "@ + s@,
                ConfigError::Serialize(s) => "配置序列化错误: "@ + s@,
                ConfigError::Validation(s) => "配置验证错误: "@ + s@,
            },
    {
        match self {
            ConfigError::FileRead(s) => {
                let mut m = String::from_str("文件读取错误: ");
                m.append(s.as_str());
                m
            },
            ConfigError::FileWrite(s) => {
                let mut m = String::from_str("文件写入错误: ");
                m.append(s.as_str());
                m
            },
            ConfigError::Parse(s) => {
                let mut m = String::from_str("配置解析错误: ");
                m.append(s.as_str());
                m
            },
            ConfigError::Serialize(s) => {
                let mut m = String::from_str("配置序列化错误: ");
                m.append(s.as_str());
                m
            },
            ConfigError::Validation(s) => {
                let mut m = String::from_str("配置验证错误: ");
                m.append(s.as_str());
                m
            },
        }
    }
}

/// The entries of one section: names and values.
pub type SectionView = Seq<(Seq<char>, ConfigValue)>;

/// The position of the entry named `key` (the last one, were there several).
pub open spec fn key_pos(entries: SectionView, key: Seq<char>) -> Option<int>
    decreases entries.len(),
{
    if entries.len() == 0 {
        None
    } else if entries.last().0 == key {
        Some(entries.len() - 1)
    } else {
        key_pos(entries.drop_last(), key)
    }
}

/// The position of the section named `name` (the last one, were there several).
pub open spec fn section_pos(sections: Seq<(Seq<char>, SectionView)>, name: Seq<char>) -> Option<int>
    decreases sections.len(),
{
    if sections.len() == 0 {
        None
    } else if sections.last().0 == name {
        Some(sections.len() - 1)
    } else {
        section_pos(sections.drop_last(), name)
    }
}

/// The value of `key` in `section`, if any.
pub open spec fn lookup(sections: Seq<(Seq<char>, SectionView)>, section: Seq<char>, key: Seq<char>) -> Option<ConfigValue> {
    match section_pos(sections, section) {
        Some(p) => match key_pos(sections[p].1, key) {
            Some(q) => Some(sections[p].1[q].1),
            None => None,
        },
        None => None,
    }
}

/// The entries of a section after `key` is set to `value`: an entry already there keeps
/// its place.
pub open spec fn set_in_section(entries: SectionView, key: Seq<char>, value: ConfigValue) -> SectionView {
    match key_pos(entries, key) {
        Some(q) => entries.update(q, (key, value)),
        None => entries.push((key, value)),
    }
}

/// The sections after `key` of `section` is set to `value`: a missing section is
/// added last.
pub open spec fn set_in(
    sections: Seq<(Seq<char>, SectionView)>,
    section: Seq<char>,
    key: Seq<char>,
    value: ConfigValue,
) -> Seq<(Seq<char>, SectionView)> {
    match section_pos(sections, section) {
        Some(p) => sections.update(p, (section, set_in_section(sections[p].1, key, value))),
        None => sections.push((section, seq![(key, value)])),
    }
}

/// The sections after section `name` is replaced by `entries` (or added last).
pub open spec fn replace_section(
    sections: Seq<(Seq<char>, SectionView)>,
    name: Seq<char>,
    entries: SectionView,
) -> Seq<(Seq<char>, SectionView)> {
    match section_pos(sections, name) {
        Some(p) => sections.update(p, (name, entries)),
        None => sections.push((name, entries)),
    }
}

/// Lemma: what finding by name finds.
proof fn lemma_key_pos(entries: SectionView, key: Seq<char>)
    ensures
        key_pos(entries, key) matches Some(q) ==> 0 <= q < entries.len() && entries[q].0 == key,
    decreases entries.len(),
{
    if entries.len() > 0 && entries.last().0 != key {
        lemma_key_pos(entries.drop_last(), key);
    }
}

/// Lemma: what finding a section by name finds.
proof fn lemma_section_pos(sections: Seq<(Seq<char>, SectionView)>, name: Seq<char>)
    ensures
        section_pos(sections, name) matches Some(p) ==> 0 <= p < sections.len() && sections[p].0
            == name,
    decreases sections.len(),
{
    if sections.len() > 0 && sections.last().0 != name {
        lemma_section_pos(sections.drop_last(), name);
    }
}

/// The configuration: sections of named values.
pub struct Config {
    sections: Vec<(String, Vec<(String, ConfigValue)>)>,
}

/// The view of the entries of one section.
pub open spec fn entries_view(entries: Seq<(String, ConfigValue)>) -> SectionView {
    entries.map_values(|e: (String, ConfigValue)| (e.0@, e.1))
}

/// The view of a list of sections.
pub open spec fn sections_view(sections: Seq<(String, Vec<(String, ConfigValue)>)>) -> Seq<
    (Seq<char>, SectionView),
> {
    sections.map_values(|s: (String, Vec<(String, ConfigValue)>)| (s.0@, entries_view(s.1@)))
}

impl View for Config {
    type V = Seq<(Seq<char>, SectionView)>;

    closed spec fn view(&self) -> Seq<(Seq<char>, SectionView)> {
        sections_view(self.sections@)
    }
}

/// The position of the entry named `key` in a section's entries.
fn find_key(entries: &Vec<(String, ConfigValue)>, key: &str) -> (r: Option<usize>)
    ensures
        r == match key_pos(entries_view(entries@), key@) {
            Some(q) => Some(q as usize),
            None => None::<usize>,
        },
        r matches Some(q) ==> q < entries@.len(),
        key_pos(entries_view(entries@), key@) matches Some(q) ==> 0 <= q < entries@.len()
            && entries_view(entries@)[q].0 == key@,
        entries@.len() <= usize::MAX,
{
    let ghost v = entries_view(entries@);
    proof {
        lemma_key_pos(v, key@);
    }
    let mut i = entries.len();
    assert(v.subrange(0, i as int) =~= v);
    while i > 0
        invariant
            i <= entries@.len(),
            entries@.len() <= usize::MAX,
            v == entries_view(entries@),
            key_pos(v, key@) == key_pos(v.subrange(0, i as int), key@),
        decreases i,
    {
        assert(v.subrange(0, i as int).drop_last() =~= v.subrange(0, i - 1));
        assert(v.subrange(0, i as int).last() == v[i - 1]);
        if same_text(entries[i - 1].0.as_str(), key) {
            return Some(i - 1);
        }
        i = i - 1;
    }
    None
}

impl Config {
    /// The position of the section named `name`.
    fn find_section(&self, name: &str) -> (r: Option<usize>)
        ensures
            r == match section_pos(self@, name@) {
                Some(p) => Some(p as usize),
                None => None::<usize>,
            },
            r matches Some(p) ==> p < self@.len(),
            section_pos(self@, name@) matches Some(p) ==> 0 <= p < self@.len() && self@[p].0
                == name@,
            self@.len() <= usize::MAX,
    {
        proof {
            lemma_section_pos(self@, name@);
        }
        let mut i = self.sections.len();
        assert(self@.subrange(0, i as int) =~= self@);
        while i > 0
            invariant
                i <= self@.len(),
                self@.len() <= usize::MAX,
                section_pos(self@, name@) == section_pos(self@.subrange(0, i as int), name@),
            decreases i,
        {
            assert(self@.subrange(0, i as int).drop_last() =~= self@.subrange(0, i - 1));
            assert(self@.subrange(0, i as int).last() == self@[i - 1]);
            if same_text(self.sections[i - 1].0.as_str(), name) {
                return Some(i - 1);
            }
            i = i - 1;
        }
        None
    }

    /// The value of `key` in `section`.
    pub fn get(&self, section: &str, key: &str) -> (r: Option<&ConfigValue>)
        ensures
            match lookup(self@, section@, key@) {
                Some(v) => r matches Some(x) && *x == v,
                None => r is None,
            },
    {
        match self.find_section(section) {
            Some(p) => {
                let entries = &self.sections[p].1;
                match find_key(entries, key) {
                    Some(q) => Some(&entries[q].1),
                    None => None,
                }
            },
            None => None,
        }
    }

    /// Sets `key` of `section` to `value`, adding the section or the key where missing.
    pub fn set(&mut self, section: &str, key: &str, value: ConfigValue)
        ensures
            final(self)@ == set_in(old(self)@, section@, key@, value),
    {
        let ghost v = value;
        match self.find_section(section) {
            Some(p) => {
                let ghost before = self@;
                let (name, mut entries) = self.sections.remove(p);
                let ghost ev = entries_view(entries@);
                match find_key(&entries, key) {
                    Some(q) => {
                        entries.set(q, (owned(key), value));
                        assert(entries_view(entries@) =~= ev.update(q as int, (key@, v)));
                    },
                    None => {
                        entries.push((owned(key), value));
                        assert(entries_view(entries@) =~= ev.push((key@, v)));
                    },
                }
                self.sections.insert(p, (name, entries));
                assert(self@ =~= set_in(before, section@, key@, v));
            },
            None => {
                let ghost before = self@;
                let mut entries: Vec<(String, ConfigValue)> = Vec::new();
                entries.push((owned(key), value));
                self.sections.push((owned(section), entries));
                assert(entries_view(entries@) =~= seq![(key@, v)]);
                assert(self@ =~= set_in(before, section@, key@, v));
            },
        }
    }

    /// Replaces section `name` by `entries`, or adds it last.
    pub fn replace_section(&mut self, name: &str, entries: Vec<(String, ConfigValue)>)
        ensures
            final(self)@ == replace_section(old(self)@, name@, entries_view(entries@)),
    {
        let ghost before = self@;
        let ghost ev = entries_view(entries@);
        match self.find_section(name) {
            Some(p) => {
                self.sections.set(p, (owned(name), entries));
            },
            None => {
                self.sections.push((owned(name), entries));
            },
        }
        assert(self@ =~= replace_section(before, name@, ev));
    }

    /// The names of the sections, in order.
    pub fn get_sections(&self) -> (r: Vec<&String>)
        ensures
            r@.len() == self@.len(),
            forall|i: int| 0 <= i < r@.len() ==> (#[trigger] r@[i])@ == self@[i].0,
    {
        let mut r: Vec<&String> = Vec::new();
        let mut i: usize = 0;
        while i < self.sections.len()
            invariant
                i <= self@.len(),
                r@.len() == i,
                forall|k: int| 0 <= k < i ==> (#[trigger] r@[k])@ == self@[k].0,
            decreases self@.len() - i,
        {
            r.push(&self.sections[i].0);
            i = i + 1;
        }
        r
    }

    /// The names of the keys of `section`, in order, if the section exists.
    pub fn get_keys(&self, section: &str) -> (r: Option<Vec<&String>>)
        ensures
            match section_pos(self@, section@) {
                Some(p) => r matches Some(v) && v@.len() == self@[p].1.len() && forall|i: int|
                    0 <= i < v@.len() ==> (#[trigger] v@[i])@ == self@[p].1[i].0,
                None => r is None,
            },
    {
        match self.find_section(section) {
            Some(p) => {
                let entries = &self.sections[p].1;
                let mut r: Vec<&String> = Vec::new();
                let mut i: usize = 0;
                while i < entries.len()
                    invariant
                        i <= entries@.len(),
                        p < self@.len(),
                        entries@ == self.sections@[p as int].1@,
                        r@.len() == i,
                        forall|k: int| 0 <= k < i ==> (#[trigger] r@[k])@ == self@[p as int].1[k].0,
                    decreases entries@.len() - i,
                {
                    r.push(&entries[i].0);
                    i = i + 1;
                }
                Some(r)
            },
            None => None,
        }
    }
}


/// Whether an entry is the text value `text` under `key`.
pub open spec fn text_entry(e: (Seq<char>, ConfigValue), key: Seq<char>, text: Seq<char>) -> bool {
    &&& e.0 == key
    &&& e.1 matches ConfigValue::String(s) && s@ == text
}

/// Whether an entry is the integer value `n` under `key`.
pub open spec fn int_entry(e: (Seq<char>, ConfigValue), key: Seq<char>, n: i64) -> bool {
    &&& e.0 == key
    &&& e.1 matches ConfigValue::Integer(i) && i == n
}

/// Whether an entry is the boolean value `b` under `key`.
pub open spec fn bool_entry(e: (Seq<char>, ConfigValue), key: Seq<char>, b: bool) -> bool {
    &&& e.0 == key
    &&& e.1 matches ConfigValue::Boolean(x) && x == b
}

/// The default configuration: the sections `shared_memory`, `queue`, `entry`,
/// `worker`, `logging` and `http` with their values.
pub open spec fn is_default(v: Seq<(Seq<char>, SectionView)>) -> bool {
    &&& v.len() == 6
    &&& v[0].0 == "shared_memory"@ && v[0].1.len() == 1
    &&& text_entry(v[0].1[0], "name"@, "mi7_daemon_queue"@)
    &&& v[1].0 == "queue"@ && v[1].1.len() == 3
    &&& int_entry(v[1].1[0], "capacity"@, 200)
    &&& text_entry(v[1].1[1], "name"@, "pipe_status_test"@)
    &&& bool_entry(v[1].1[2], "persistent"@, false)
    &&& v[2].0 == "entry"@ && v[2].1.len() == 3
    &&& text_entry(v[2].1[0], "interface_name"@, "entry_resp_pipe"@)
    &&& text_entry(v[2].1[1], "interface_type"@, "default"@)
    &&& text_entry(v[2].1[2], "log_level"@, "info"@)
    &&& v[3].0 == "worker"@ && v[3].1.len() == 4
    &&& text_entry(v[3].1[0], "interface_name"@, "work_req_pipe"@)
    &&& text_entry(v[3].1[1], "interface_type"@, "large"@)
    &&& text_entry(v[3].1[2], "log_prefix"@, "workers"@)
    &&& text_entry(v[3].1[3], "log_level"@, "info"@)
    &&& v[4].0 == "logging"@ && v[4].1.len() == 4
    &&& text_entry(v[4].1[0], "log_path"@, "./logs"@)
    &&& text_entry(v[4].1[1], "log_prefix"@, "mi7"@)
    &&& bool_entry(v[4].1[2], "console_output"@, true)
    &&& text_entry(v[4].1[3], "level"@, "info"@)
    &&& v[5].0 == "http"@ && v[5].1.len() == 4
    &&& int_entry(v[5].1[0], "port"@, 8888)
    &&& text_entry(v[5].1[1], "bind_address"@, "0.0.0.0"@)
    &&& int_entry(v[5].1[2], "timeout_seconds"@, 30)
    &&& int_entry(v[5].1[3], "max_connections"@, 1000)
}

/// The log levels that validation accepts, in the form its messages list them.
pub open spec fn levels_text() -> Seq<char> {
    "[\"trace\", \"debug\", \"info\", \"warn\", \"error\"]"@
}

/// Whether a text is one of the accepted log levels.
pub open spec fn level_ok(t: Seq<char>) -> bool {
    t == "trace"@ || t == "debug"@ || t == "info"@ || t == "warn"@ || t == "error"@
}

/// Law: the log levels validation accepts are exactly `trace`, `debug`, `info`, `warn`
/// and `error`, as written (case counts): a log level set to one of them draws no
/// complaint, any other draws the complaint, and the complaint lists those five levels.
pub proof fn lemma_log_levels(v: Seq<(Seq<char>, SectionView)>, section: Seq<char>, key: Seq<char>)
    ensures
        match lookup(v, section, key) {
            Some(x) => (level_problem(v, section, key) is None <==> {
                ||| value_text(x) == "trace"@
                ||| value_text(x) == "debug"@
                ||| value_text(x) == "info"@
                ||| value_text(x) == "warn"@
                ||| value_text(x) == "error"@
            }),
            None => level_problem(v, section, key) is None,
        },
        levels_text() == "[\"trace\", \"debug\", \"info\", \"warn\", \"error\"]"@,
{
}

/// The complaint about an empty interface name of `section`, if any.
pub open spec fn name_problem(v: Seq<(Seq<char>, SectionView)>, section: Seq<char>) -> Option<Seq<char>> {
    match lookup(v, section, "interface_name"@) {
        Some(x) => if value_text(x).len() == 0 {
            Some(section + ".interface_name 不能为空"@)
        } else {
            None
        },
        None => None,
    }
}

/// The complaint about the log level under `key` of `section`, if any.
pub open spec fn level_problem(v: Seq<(Seq<char>, SectionView)>, section: Seq<char>, key: Seq<char>) -> Option<Seq<char>> {
    match lookup(v, section, key) {
        Some(x) => if !level_ok(value_text(x)) {
            Some("无效的 "@ + section + "."@ + key + ": "@ + value_text(x) + "，有效值: "@ + levels_text())
        } else {
            None
        },
        None => None,
    }
}

/// What validation finds: the first complaint, in this order: the entry's interface
/// name and log level, the worker's interface name and log level, the logging level.
pub open spec fn validation(v: Seq<(Seq<char>, SectionView)>) -> Option<Seq<char>> {
    if name_problem(v, "entry"@) is Some {
        name_problem(v, "entry"@)
    } else if level_problem(v, "entry"@, "log_level"@) is Some {
        level_problem(v, "entry"@, "log_level"@)
    } else if name_problem(v, "worker"@) is Some {
        name_problem(v, "worker"@)
    } else if level_problem(v, "worker"@, "log_level"@) is Some {
        level_problem(v, "worker"@, "log_level"@)
    } else {
        level_problem(v, "logging"@, "level"@)
    }
}

/// The entries a list of pairs makes when each is set in turn: later pairs replace
/// earlier ones with the same name.
pub open spec fn entries_of(pairs: SectionView) -> SectionView
    decreases pairs.len(),
{
    if pairs.len() == 0 {
        Seq::empty()
    } else {
        set_in_section(entries_of(pairs.drop_last()), pairs.last().0, pairs.last().1)
    }
}

/// The sections of `base` with each loaded section put in place, in turn.
pub open spec fn loaded(
    base: Seq<(Seq<char>, SectionView)>,
    parsed: Seq<(Seq<char>, SectionView)>,
) -> Seq<(Seq<char>, SectionView)>
    decreases parsed.len(),
{
    if parsed.len() == 0 {
        base
    } else {
        replace_section(loaded(base, parsed.drop_last()), parsed.last().0, entries_of(parsed.last().1))
    }
}

/// A text value.
fn text_value(s: &str) -> (v: ConfigValue)
    ensures
        v matches ConfigValue::String(x) && x@ == s@,
{
    ConfigValue::String(owned(s))
}

impl Config {
    /// The default configuration.
    pub fn default() -> (c: Config)
        ensures
            is_default(c@),
    {
        let mut shared_memory: Vec<(String, ConfigValue)> = Vec::new();
        shared_memory.push((owned("name"), text_value("mi7_daemon_queue")));
        let mut queue: Vec<(String, ConfigValue)> = Vec::new();
        queue.push((owned("capacity"), ConfigValue::Integer(200)));
        queue.push((owned("name"), text_value("pipe_status_test")));
        queue.push((owned("persistent"), ConfigValue::Boolean(false)));
        let mut entry: Vec<(String, ConfigValue)> = Vec::new();
        entry.push((owned("interface_name"), text_value("entry_resp_pipe")));
        entry.push((owned("interface_type"), text_value("default")));
        entry.push((owned("log_level"), text_value("info")));
        let mut worker: Vec<(String, ConfigValue)> = Vec::new();
        worker.push((owned("interface_name"), text_value("work_req_pipe")));
        worker.push((owned("interface_type"), text_value("large")));
        worker.push((owned("log_prefix"), text_value("workers")));
        worker.push((owned("log_level"), text_value("info")));
        let mut logging: Vec<(String, ConfigValue)> = Vec::new();
        logging.push((owned("log_path"), text_value("./logs")));
        logging.push((owned("log_prefix"), text_value("mi7")));
        logging.push((owned("console_output"), ConfigValue::Boolean(true)));
        logging.push((owned("level"), text_value("info")));
        let mut http: Vec<(String, ConfigValue)> = Vec::new();
        http.push((owned("port"), ConfigValue::Integer(8888)));
        http.push((owned("bind_address"), text_value("0.0.0.0")));
        http.push((owned("timeout_seconds"), ConfigValue::Integer(30)));
        http.push((owned("max_connections"), ConfigValue::Integer(1000)));
        let mut sections: Vec<(String, Vec<(String, ConfigValue)>)> = Vec::new();
        sections.push((owned("shared_memory"), shared_memory));
        sections.push((owned("queue"), queue));
        sections.push((owned("entry"), entry));
        sections.push((owned("worker"), worker));
        sections.push((owned("logging"), logging));
        sections.push((owned("http"), http));
        Config { sections }
    }

    /// The complaint about an empty interface name of `section`, if any.
    fn check_name(&self, section: &str) -> (r: Option<String>)
        ensures
            match name_problem(self@, section@) {
                Some(m) => r matches Some(x) && x@ == m,
                None => r is None,
            },
    {
        match self.get(section, "interface_name") {
            Some(v) => {
                let t = v.as_string();
                match t {
                    Some(name) => {
                        if name.as_str().unicode_len() == 0 {
                            let mut m = owned(section);
                            m.append(".interface_name 不能为空");
                            Some(m)
                        } else {
                            None
                        }
                    },
                    None => None,
                }
            },
            None => None,
        }
    }

    /// The complaint about the log level under `key` of `section`, if any.
    fn check_level(&self, section: &str, key: &str) -> (r: Option<String>)
        ensures
            match level_problem(self@, section@, key@) {
                Some(m) => r matches Some(x) && x@ == m,
                None => r is None,
            },
    {
        match self.get(section, key) {
            Some(v) => {
                let t = v.as_string();
                match t {
                    Some(level) => {
                        let l = level.as_str();
                        if same_text(l, "trace") || same_text(l, "debug") || same_text(l, "info")
                            || same_text(l, "warn") || same_text(l, "error") {
                            None
                        } else {
                            let mut m = String::from_str("无效的 ");
                            m.append(section);
                            m.append(".");
                            m.append(key);
                            m.append(": ");
                            m.append(l);
                            m.append("，有效值: ");
                            m.append("[\"trace\", \"debug\", \"info\", \"warn\", \"error\"]");
                            Some(m)
                        }
                    },
                    None => None,
                }
            },
            None => None,
        }
    }

    /// Checks the interface names and log levels; the first complaint is the error.
    pub fn validate(&self) -> (r: Result<(), ConfigError>)
        ensures
            match validation(self@) {
                Some(m) => r matches Err(ConfigError::Validation(x)) && x@ == m,
                None => r is Ok,
            },
    {
        if let Some(m) = self.check_name("entry") {
            return Err(ConfigError::Validation(m));
        }
        if let Some(m) = self.check_level("entry", "log_level") {
            return Err(ConfigError::Validation(m));
        }
        if let Some(m) = self.check_name("worker") {
            return Err(ConfigError::Validation(m));
        }
        if let Some(m) = self.check_level("worker", "log_level") {
            return Err(ConfigError::Validation(m));
        }
        if let Some(m) = self.check_level("logging", "level") {
            return Err(ConfigError::Validation(m));
        }
        Ok(())
    }

    /// The default configuration with the given sections put in place: each replaces
    /// the section of its name (or is added), its pairs set in turn.
    pub fn from_sections(parsed: Vec<(String, Vec<(String, ConfigValue)>)>) -> (c: Config)
        ensures
            exists|base: Seq<(Seq<char>, SectionView)>|
                is_default(base) && c@ == loaded(base, sections_view(parsed@)),
    {
        let mut config = Config::default();
        let ghost base = config@;
        let ghost pv = sections_view(parsed@);
        let ghost n = pv.len();
        let total = parsed.len();
        let mut rest = parsed;
        let mut done: usize = 0;
        while rest.len() > 0
            invariant
                n == pv.len(),
                n == total,
                done + rest@.len() == n,
                sections_view(rest@) == pv.subrange(done as int, n as int),
                config@ == loaded(base, pv.subrange(0, done as int)),
            decreases rest.len(),
        {
            let ghost old_rest = rest@;
            let (name, pairs) = rest.remove(0);
            assert(rest@ =~= old_rest.subrange(1, old_rest.len() as int));
            assert(sections_view(old_rest)[0] == pv[done as int]);
            assert(pv[done as int] == (name@, entries_view(pairs@)));
            let entries = Config::entries_from_pairs(pairs);
            config.replace_section(name.as_str(), entries);
            done = done + 1;
            assert(pv.subrange(0, done as int).drop_last() =~= pv.subrange(0, done - 1));
            assert forall|i: int| 0 <= i < rest@.len() implies sections_view(rest@)[i] == pv[done
                + i] by {
                assert(rest@[i] == old_rest[i + 1]);
                assert(sections_view(old_rest)[i + 1] == pv.subrange(done - 1, n as int)[i + 1]);
            }
            assert(sections_view(rest@) =~= pv.subrange(done as int, n as int));
        }
        assert(pv.subrange(0, done as int) =~= pv);
        config
    }

    /// The entries that setting the pairs in turn makes.
    fn entries_from_pairs(pairs: Vec<(String, ConfigValue)>) -> (r: Vec<(String, ConfigValue)>)
        ensures
            entries_view(r@) == entries_of(entries_view(pairs@)),
    {
        let ghost pv = entries_view(pairs@);
        let ghost n = pv.len();
        let total = pairs.len();
        let mut rest = pairs;
        let mut out: Vec<(String, ConfigValue)> = Vec::new();
        let mut done: usize = 0;
        while rest.len() > 0
            invariant
                n == pv.len(),
                n == total,
                done + rest@.len() == n,
                entries_view(rest@) == pv.subrange(done as int, n as int),
                entries_view(out@) == entries_of(pv.subrange(0, done as int)),
            decreases rest.len(),
        {
            let ghost old_rest = rest@;
            let (key, value) = rest.remove(0);
            let ghost v = value;
            assert(rest@ =~= old_rest.subrange(1, old_rest.len() as int));
            assert(entries_view(old_rest)[0] == pv[done as int]);
            assert(pv[done as int] == (key@, v));
            let ghost ov = entries_view(out@);
            match find_key(&out, key.as_str()) {
                Some(q) => {
                    out.set(q, (key, value));
                    assert(entries_view(out@) =~= ov.update(q as int, (pv[done as int].0, v)));
                },
                None => {
                    out.push((key, value));
                    assert(entries_view(out@) =~= ov.push((pv[done as int].0, v)));
                },
            }
            done = done + 1;
            assert(pv.subrange(0, done as int).drop_last() =~= pv.subrange(0, done - 1));
            assert forall|i: int| 0 <= i < rest@.len() implies entries_view(rest@)[i] == pv[done
                + i] by {
                assert(rest@[i] == old_rest[i + 1]);
                assert(entries_view(old_rest)[i + 1] == pv.subrange(done - 1, n as int)[i + 1]);
            }
            assert(entries_view(rest@) =~= pv.subrange(done as int, n as int));
        }
        assert(pv.subrange(0, done as int) =~= pv);
        out
    }
}

/// Law: what a read gives back of a write: after `key` of `section` is set to a value,
/// looking it up gives that value, and every other lookup is unchanged.
pub proof fn lemma_set_then_get(
    v: Seq<(Seq<char>, SectionView)>,
    section: Seq<char>,
    key: Seq<char>,
    value: ConfigValue,
    other_section: Seq<char>,
    other_key: Seq<char>,
)
    ensures
        lookup(set_in(v, section, key, value), section, key) == Some(value),
        (other_section != section || other_key != key) ==> lookup(
            set_in(v, section, key, value),
            other_section,
            other_key,
        ) == lookup(v, other_section, other_key),
{
    lemma_section_pos(v, section);
    lemma_section_pos(v, other_section);
    let w = set_in(v, section, key, value);
    lemma_pos_after_set(v, section, key, value, section);
    lemma_pos_after_set(v, section, key, value, other_section);
    match section_pos(v, section) {
        Some(p) => {
            lemma_key_pos(v[p].1, key);
            lemma_key_pos(v[p].1, other_key);
            lemma_key_pos_after_set(v[p].1, key, value, key);
            lemma_key_pos_after_set(v[p].1, key, value, other_key);
        },
        None => {
            lemma_key_pos_single(key, value, key);
            lemma_key_pos_single(key, value, other_key);
        },
    }
}

/// Lemma: setting a key keeps the places of the sections, and a section added goes last.
proof fn lemma_pos_after_set(
    v: Seq<(Seq<char>, SectionView)>,
    section: Seq<char>,
    key: Seq<char>,
    value: ConfigValue,
    name: Seq<char>,
)
    ensures
        section_pos(v, section) is Some ==> section_pos(set_in(v, section, key, value), name)
            == section_pos(v, name),
        section_pos(v, section) is None ==> section_pos(set_in(v, section, key, value), name) == if name == section {
            Some(v.len() as int)
        } else {
            section_pos(v, name)
        },
{
    lemma_section_pos(v, section);
    let w = set_in(v, section, key, value);
    match section_pos(v, section) {
        Some(p) => {
            lemma_pos_same_names(v, w, name);
        },
        None => {
            assert(w.drop_last() =~= v);
        },
    }
}

/// Lemma: two lists of sections with the same names find a name at the same place.
proof fn lemma_pos_same_names(
    a: Seq<(Seq<char>, SectionView)>,
    b: Seq<(Seq<char>, SectionView)>,
    name: Seq<char>,
)
    requires
        a.len() == b.len(),
        forall|i: int| 0 <= i < a.len() ==> #[trigger] a[i].0 == b[i].0,
    ensures
        section_pos(a, name) == section_pos(b, name),
    decreases a.len(),
{
    if a.len() > 0 {
        lemma_pos_same_names(a.drop_last(), b.drop_last(), name);
    }
}

/// Lemma: two lists of entries with the same names find a name at the same place.
proof fn lemma_key_pos_same_names(a: SectionView, b: SectionView, key: Seq<char>)
    requires
        a.len() == b.len(),
        forall|i: int| 0 <= i < a.len() ==> #[trigger] a[i].0 == b[i].0,
    ensures
        key_pos(a, key) == key_pos(b, key),
    decreases a.len(),
{
    if a.len() > 0 {
        lemma_key_pos_same_names(a.drop_last(), b.drop_last(), key);
    }
}

/// Lemma: where a key is found after another key is set in a section.
proof fn lemma_key_pos_after_set(e: SectionView, key: Seq<char>, value: ConfigValue, k: Seq<char>)
    ensures
        key_pos(e, key) is Some ==> key_pos(set_in_section(e, key, value), k) == key_pos(e, k),
        key_pos(e, key) is None ==> key_pos(set_in_section(e, key, value), k) == if k == key {
            Some(e.len() as int)
        } else {
            key_pos(e, k)
        },
{
    lemma_key_pos(e, key);
    let f = set_in_section(e, key, value);
    match key_pos(e, key) {
        Some(q) => {
            lemma_key_pos_same_names(e, f, k);
        },
        None => {
            assert(f.drop_last() =~= e);
        },
    }
}

/// Lemma: a one-entry section finds its key at the start.
proof fn lemma_key_pos_single(key: Seq<char>, value: ConfigValue, k: Seq<char>)
    ensures
        key_pos(seq![(key, value)], k) == if k == key { Some(0int) } else { None },
{
    let e = seq![(key, value)];
    assert(e.drop_last() =~= Seq::<(Seq<char>, ConfigValue)>::empty());
    assert(key_pos(e.drop_last(), k) is None);
    assert(e.last().0 == key);
}


} // verus!

verus! {

/// The section and key a dotted name stands for: the text before the first `.` and the
/// text after it; a name without `.` is a key of the `worker` section.
pub open spec fn dotted(name: Seq<char>) -> (Seq<char>, Seq<char>) {
    match find_from(name, '.', 0) {
        Some(i) => (name.subrange(0, i), name.subrange(i + 1, name.len() as int)),
        None => ("worker"@, name),
    }
}

/// The text of a value found, or `default`.
pub open spec fn text_or(found: Option<ConfigValue>, default: Seq<char>) -> Seq<char> {
    match found {
        Some(v) => value_text(v),
        None => default,
    }
}

/// The integer a value found reads as, or `default`.
pub open spec fn int_or_default(found: Option<ConfigValue>, default: i64) -> i64 {
    match found {
        Some(v) => match value_int(v) {
            Some(n) => n,
            None => default,
        },
        None => default,
    }
}

/// The boolean a value found reads as, or `default`.
pub open spec fn bool_or_default(found: Option<ConfigValue>, default: bool) -> bool {
    match found {
        Some(v) => match value_bool(v) {
            Some(b) => b,
            None => default,
        },
        None => default,
    }
}

/// The text of `key` in `section`; empty where it is missing.
pub fn string(config: &Config, section: &str, key: &str) -> (r: String)
    ensures
        r@ == text_or(lookup(config@, section@, key@), Seq::empty()),
{
    match config.get(section, key) {
        Some(v) => match v.as_string() {
            Some(s) => s,
            None => String::new(),
        },
        None => String::new(),
    }
}

/// The text of `key` in `section`, or `default` where it is missing.
pub fn string_or(config: &Config, section: &str, key: &str, default: &str) -> (r: String)
    ensures
        r@ == text_or(lookup(config@, section@, key@), default@),
{
    match config.get(section, key) {
        Some(v) => match v.as_string() {
            Some(s) => s,
            None => owned(default),
        },
        None => owned(default),
    }
}

/// The integer of `key` in `section`; 0 where it is missing or reads as no integer.
pub fn integer(config: &Config, section: &str, key: &str) -> (r: i64)
    ensures
        r == int_or_default(lookup(config@, section@, key@), 0),
{
    int_or(config, section, key, 0)
}

/// The integer of `key` in `section`, or `default` where it is missing or reads as no
/// integer.
pub fn int_or(config: &Config, section: &str, key: &str, default: i64) -> (r: i64)
    ensures
        r == int_or_default(lookup(config@, section@, key@), default),
{
    match config.get(section, key) {
        Some(v) => match v.as_int() {
            Some(n) => n,
            None => default,
        },
        None => default,
    }
}

/// The boolean of `key` in `section`; false where it is missing or reads as no boolean.
pub fn bool(config: &Config, section: &str, key: &str) -> (r: bool)
    ensures
        r == bool_or_default(lookup(config@, section@, key@), false),
{
    bool_or(config, section, key, false)
}

/// The boolean of `key` in `section`, or `default` where it is missing or reads as no
/// boolean.
pub fn bool_or(config: &Config, section: &str, key: &str, default: bool) -> (r: bool)
    ensures
        r == bool_or_default(lookup(config@, section@, key@), default),
{
    match config.get(section, key) {
        Some(v) => match v.as_bool() {
            Some(b) => b,
            None => default,
        },
        None => default,
    }
}

/// Splits a dotted name into its section and key.
fn split_dotted(name: &str) -> (r: (String, String))
    ensures
        r.0@ == dotted(name@).0,
        r.1@ == dotted(name@).1,
{
    let cs = chars_of(name);
    proof {
        lemma_find_from(name@, '.', 0);
    }
    match find_char(&cs, '.', 0) {
        Some(i) => {
            assert(find_from(name@, '.', 0) == Some(i as int));
            let section = string_of_range(&cs, 0, i);
            let key = string_of_range(&cs, i + 1, cs.len());
            (section, key)
        },
        None => {
            assert(find_from(name@, '.', 0) is None);
            (String::from_str("worker"), owned(name))
        },
    }
}

/// Lookups by dotted name (`section.key`, or a bare key of the `worker` section).
pub struct ConfigAccessor<'a> {
    config: &'a Config,
}

impl<'a> ConfigAccessor<'a> {
    /// An accessor over `config`.
    pub fn new(config: &'a Config) -> (r: Self)
        ensures
            r.config() == config,
    {
        ConfigAccessor { config }
    }

    /// The configuration looked into.
    pub closed spec fn config(&self) -> &'a Config {
        self.config
    }

    /// The text under a dotted name; empty where it is missing.
    pub fn string(&self, name: &str) -> (r: String)
        ensures
            r@ == text_or(lookup(self.config()@, dotted(name@).0, dotted(name@).1), Seq::empty()),
    {
        let (section, key) = split_dotted(name);
        string(self.config, section.as_str(), key.as_str())
    }

    /// The integer under a dotted name; 0 where it is missing or reads as no integer.
    pub fn integer(&self, name: &str) -> (r: i64)
        ensures
            r == int_or_default(lookup(self.config()@, dotted(name@).0, dotted(name@).1), 0),
    {
        let (section, key) = split_dotted(name);
        integer(self.config, section.as_str(), key.as_str())
    }

    /// The boolean under a dotted name; false where it is missing or reads as no boolean.
    pub fn bool(&self, name: &str) -> (r: bool)
        ensures
            r == bool_or_default(lookup(self.config()@, dotted(name@).0, dotted(name@).1), false),
    {
        let (section, key) = split_dotted(name);
        bool(self.config, section.as_str(), key.as_str())
    }

    /// The text under a dotted name, or `default`.
    pub fn string_or(&self, name: &str, default: &str) -> (r: String)
        ensures
            r@ == text_or(lookup(self.config()@, dotted(name@).0, dotted(name@).1), default@),
    {
        let (section, key) = split_dotted(name);
        string_or(self.config, section.as_str(), key.as_str(), default)
    }

    /// The integer under a dotted name, or `default`.
    pub fn int_or(&self, name: &str, default: i64) -> (r: i64)
        ensures
            r == int_or_default(lookup(self.config()@, dotted(name@).0, dotted(name@).1), default),
    {
        let (section, key) = split_dotted(name);
        int_or(self.config, section.as_str(), key.as_str(), default)
    }

    /// The boolean under a dotted name, or `default`.
    pub fn bool_or(&self, name: &str, default: bool) -> (r: bool)
        ensures
            r == bool_or_default(lookup(self.config()@, dotted(name@).0, dotted(name@).1), default),
    {
        let (section, key) = split_dotted(name);
        bool_or(self.config, section.as_str(), key.as_str(), default)
    }
}

/// Takes a configuration as the one in use: it must pass validation, and there must be
/// none in use yet (`in_use`).
pub fn init_config(config: Config, in_use: bool) -> (r: Result<Config, ConfigError>)
    ensures
        match validation(config@) {
            Some(m) => r matches Err(ConfigError::Validation(x)) && x@ == m,
            None => if in_use {
                r matches Err(ConfigError::Validation(x)) && x@ == "配置已经初始化"@
            } else {
                r matches Ok(c) && c@ == config@
            },
        },
{
    match config.validate() {
        Err(e) => Err(e),
        Ok(()) => {
            if in_use {
                Err(ConfigError::Validation(String::from_str("配置已经初始化")))
            } else {
                Ok(config)
            }
        },
    }
}

} // verus!

verus! {

/// A value of a configuration file, as the file's format gives it.
#[derive(Debug)]
pub enum TomlItem {
    /// A value the configuration can hold.
    Value(ConfigValue),
    /// A value of another kind (a date, an array, a table): skipped.
    Unsupported,
}

/// A top-level entry of a configuration file.
#[derive(Debug)]
pub enum TomlSection {
    /// A table: a section and its items.
    Table(Vec<(String, TomlItem)>),
    /// Anything else: ignored.
    Other,
}

/// The view of a list of pairs of strings.
pub open spec fn pairs_view(pairs: Seq<(String, String)>) -> Seq<(Seq<char>, Seq<char>)> {
    pairs.map_values(|p: (String, String)| (p.0@, p.1@))
}

/// The entries of a file's table that the configuration can hold, in order.
pub open spec fn supported_items(items: Seq<(String, TomlItem)>) -> SectionView
    decreases items.len(),
{
    if items.len() == 0 {
        Seq::empty()
    } else {
        let rest = supported_items(items.drop_last());
        match items.last().1 {
            TomlItem::Value(v) => rest.push((items.last().0@, v)),
            TomlItem::Unsupported => rest,
        }
    }
}

/// The names (`section`, key) of the entries of a file's table that are skipped.
pub open spec fn skipped_items(section: Seq<char>, items: Seq<(String, TomlItem)>) -> Seq<
    (Seq<char>, Seq<char>),
>
    decreases items.len(),
{
    if items.len() == 0 {
        Seq::empty()
    } else {
        let rest = skipped_items(section, items.drop_last());
        match items.last().1 {
            TomlItem::Value(_) => rest,
            TomlItem::Unsupported => rest.push((section, items.last().0@)),
        }
    }
}

/// The sections a file gives: its tables, with the entries the configuration can hold.
pub open spec fn table_sections(parsed: Seq<(String, TomlSection)>) -> Seq<(Seq<char>, SectionView)>
    decreases parsed.len(),
{
    if parsed.len() == 0 {
        Seq::empty()
    } else {
        let rest = table_sections(parsed.drop_last());
        match parsed.last().1 {
            TomlSection::Table(items) => rest.push((parsed.last().0@, supported_items(items@))),
            TomlSection::Other => rest,
        }
    }
}

/// The names of the entries a file gives that are skipped, table by table.
pub open spec fn skipped_values(parsed: Seq<(String, TomlSection)>) -> Seq<(Seq<char>, Seq<char>)>
    decreases parsed.len(),
{
    if parsed.len() == 0 {
        Seq::empty()
    } else {
        let rest = skipped_values(parsed.drop_last());
        match parsed.last().1 {
            TomlSection::Table(items) => rest + skipped_items(parsed.last().0@, items@),
            TomlSection::Other => rest,
        }
    }
}

/// The entries of a file's table that the configuration can hold; the names of the
/// others are added to `skipped`.
fn keep_supported(
    section: &String,
    items: Vec<(String, TomlItem)>,
    skipped: &mut Vec<(String, String)>,
) -> (r: Vec<(String, ConfigValue)>)
    ensures
        entries_view(r@) == supported_items(items@),
        pairs_view(final(skipped)@) == pairs_view(old(skipped)@) + skipped_items(section@, items@),
{
    let ghost iv = items@;
    let ghost n = iv.len();
    let ghost start = pairs_view(skipped@);
    let total = items.len();
    let mut rest = items;
    let mut out: Vec<(String, ConfigValue)> = Vec::new();
    let mut done: usize = 0;
    while rest.len() > 0
        invariant
            n == iv.len(),
            n == total,
            done + rest@.len() == n,
            rest@ == iv.subrange(done as int, n as int),
            entries_view(out@) == supported_items(iv.subrange(0, done as int)),
            pairs_view(skipped@) == start + skipped_items(section@, iv.subrange(0, done as int)),
        decreases rest.len(),
    {
        let ghost old_rest = rest@;
        let ghost old_out = entries_view(out@);
        let ghost old_skipped = pairs_view(skipped@);
        let (key, item) = rest.remove(0);
        assert(rest@ =~= old_rest.subrange(1, old_rest.len() as int));
        assert(iv[done as int] == (key, item));
        let ghost k = key@;
        match item {
            TomlItem::Value(v) => {
                let ghost gv = v;
                out.push((key, v));
                assert(entries_view(out@) =~= old_out.push((k, gv)));
            },
            TomlItem::Unsupported => {
                let s = owned(section.as_str());
                skipped.push((s, key));
                assert(pairs_view(skipped@) =~= old_skipped.push((section@, k)));
            },
        }
        done = done + 1;
        assert(iv.subrange(0, done as int).drop_last() =~= iv.subrange(0, done - 1));
        assert(rest@ =~= iv.subrange(done as int, n as int));
    }
    assert(iv.subrange(0, done as int) =~= iv);
    out
}

impl Config {
    /// The default configuration with the tables of a configuration file put in place,
    /// each replacing the section of its name (or added); entries of kinds the
    /// configuration cannot hold are skipped, and their names returned.
    pub fn from_parsed(parsed: Vec<(String, TomlSection)>) -> (r: (Config, Vec<(String, String)>))
        ensures
            exists|base: Seq<(Seq<char>, SectionView)>|
                is_default(base) && r.0@ == loaded(base, table_sections(parsed@)),
            pairs_view(r.1@) == skipped_values(parsed@),
    {
        let ghost pv = parsed@;
        let ghost n = pv.len();
        let total = parsed.len();
        let mut rest = parsed;
        let mut sections: Vec<(String, Vec<(String, ConfigValue)>)> = Vec::new();
        let mut skipped: Vec<(String, String)> = Vec::new();
        let mut done: usize = 0;
        while rest.len() > 0
            invariant
                n == pv.len(),
                n == total,
                done + rest@.len() == n,
                rest@ == pv.subrange(done as int, n as int),
                sections_view(sections@) == table_sections(pv.subrange(0, done as int)),
                pairs_view(skipped@) == skipped_values(pv.subrange(0, done as int)),
            decreases rest.len(),
        {
            let ghost old_rest = rest@;
            let ghost old_sections = sections_view(sections@);
            let (name, section) = rest.remove(0);
            assert(rest@ =~= old_rest.subrange(1, old_rest.len() as int));
            assert(pv[done as int] == (name, section));
            match section {
                TomlSection::Table(items) => {
                    let entries = keep_supported(&name, items, &mut skipped);
                    let ghost e = entries_view(entries@);
                    let ghost nm = name@;
                    sections.push((name, entries));
                    assert(sections_view(sections@) =~= old_sections.push((nm, e)));
                },
                TomlSection::Other => {},
            }
            done = done + 1;
            assert(pv.subrange(0, done as int).drop_last() =~= pv.subrange(0, done - 1));
            assert(rest@ =~= pv.subrange(done as int, n as int));
        }
        assert(pv.subrange(0, done as int) =~= pv);
        let config = Config::from_sections(sections);
        (config, skipped)
    }
}

} // verus!

verus! {

/// Lemma: a section is found at the last place that holds its name.
proof fn lemma_section_pos_at(v: Seq<(Seq<char>, SectionView)>, name: Seq<char>, p: int)
    requires
        0 <= p < v.len(),
        v[p].0 == name,
        forall|k: int| p < k < v.len() ==> #[trigger] v[k].0 != name,
    ensures
        section_pos(v, name) == Some(p),
    decreases v.len(),
{
    if v.len() - 1 != p {
        lemma_section_pos_at(v.drop_last(), name, p);
    }
}

/// Lemma: a key is found at the last place that holds its name.
proof fn lemma_key_pos_at(e: SectionView, key: Seq<char>, q: int)
    requires
        0 <= q < e.len(),
        e[q].0 == key,
        forall|k: int| q < k < e.len() ==> #[trigger] e[k].0 != key,
    ensures
        key_pos(e, key) == Some(q),
    decreases e.len(),
{
    if e.len() - 1 != q {
        lemma_key_pos_at(e.drop_last(), key, q);
    }
}

/// Law: the default configuration passes validation.
pub proof fn lemma_default_is_valid(v: Seq<(Seq<char>, SectionView)>)
    requires
        is_default(v),
    ensures
        validation(v) is None,
{
    reveal_strlit("entry");
    reveal_strlit("worker");
    reveal_strlit("logging");
    reveal_strlit("http");
    reveal_strlit("interface_name");
    reveal_strlit("interface_type");
    reveal_strlit("log_prefix");
    reveal_strlit("log_level");
    reveal_strlit("console_output");
    reveal_strlit("level");
    reveal_strlit("info");
    reveal_strlit("entry_resp_pipe");
    reveal_strlit("work_req_pipe");
    assert("interface_type"@[10] != "interface_name"@[10]);
    assert(v[3].0.len() != "entry"@.len() && v[4].0.len() != "entry"@.len() && v[5].0.len()
        != "entry"@.len());
    assert(v[4].0.len() != "worker"@.len() && v[5].0.len() != "worker"@.len());
    lemma_section_pos_at(v, "entry"@, 2);
    lemma_section_pos_at(v, "worker"@, 3);
    lemma_section_pos_at(v, "logging"@, 4);
    assert(v[2].1[1].0[10] != "interface_name"@[10]);
    assert(v[2].1[2].0.len() != "interface_name"@.len());
    assert(v[3].1[1].0[10] != "interface_name"@[10]);
    assert(v[3].1[2].0.len() != "interface_name"@.len());
    assert(v[3].1[3].0.len() != "interface_name"@.len());
    lemma_key_pos_at(v[2].1, "interface_name"@, 0);
    lemma_key_pos_at(v[2].1, "log_level"@, 2);
    lemma_key_pos_at(v[3].1, "interface_name"@, 0);
    lemma_key_pos_at(v[3].1, "log_level"@, 3);
    lemma_key_pos_at(v[4].1, "level"@, 3);
}

} // verus!
