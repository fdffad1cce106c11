//! Pipe configurations: the predefined sizes, custom sizes, their validation and the
//! choice of layout a factory makes for a pipe type.
use vstd::prelude::*;
use crate::text::{ascii_lower, chars_of, decimal, push_decimal};

verus! {

/// The kinds of pipes: three predefined sizes and custom ones.
#[derive(Debug, Clone, Copy, PartialEq, Eq, Structural)]
pub enum PipeType {
    /// 10 slots of 1 KiB.
    Small,
    /// 100 slots of 4 KiB.
    Default,
    /// 1000 slots of 8 KiB.
    Large,
    /// A given number of slots of a given size.
    Custom(usize, usize),
}

/// The number of slots of a pipe and the size of each slot.
#[derive(Debug, Clone, Copy, PartialEq, Eq, Structural)]
pub struct PipeConfig {
    /// The number of slots.
    pub capacity: usize,
    /// The size of a slot in bytes.
    pub slot_size: usize,
}

/// The state of a pipe, counted over its slots.
#[derive(Debug, Clone, Copy, PartialEq, Eq, Structural)]
pub struct PipeStatus {
    /// The number of slots.
    pub capacity: usize,
    /// The size of a slot in bytes.
    pub slot_size: usize,
    /// Where the next claim for writing starts looking.
    pub write_pointer: usize,
    /// Where the next claim for reading starts looking.
    pub read_pointer: usize,
    /// Slots that are `EMPTY`.
    pub empty_count: usize,
    /// Slots that are `WRITING`.
    pub writing_count: usize,
    /// Slots that are `INPROGRESS`.
    pub in_progress_count: usize,
    /// Slots that are `READING`.
    pub reading_count: usize,
    /// Slots that are `READY`.
    pub ready_count: usize,
    /// Slots that are not `EMPTY`.
    pub used_count: usize,
}

/// The configuration of a predefined or custom pipe type.
pub open spec fn type_config(t: PipeType) -> PipeConfig {
    match t {
        PipeType::Small => PipeConfig { capacity: 10, slot_size: 1024 },
        PipeType::Default => PipeConfig { capacity: 100, slot_size: 4096 },
        PipeType::Large => PipeConfig { capacity: 1000, slot_size: 8192 },
        PipeType::Custom(c, s) => PipeConfig { capacity: c, slot_size: s },
    }
}

/// The pipe type of a configuration: a predefined one where the sizes match it.
pub open spec fn config_type_of(c: PipeConfig) -> PipeType {
    if c.capacity == 10 && c.slot_size == 1024 {
        PipeType::Small
    } else if c.capacity == 100 && c.slot_size == 4096 {
        PipeType::Default
    } else if c.capacity == 1000 && c.slot_size == 8192 {
        PipeType::Large
    } else {
        PipeType::Custom(c.capacity, c.slot_size)
    }
}

/// The names of the predefined pipe types, in the form their error messages list them.
pub open spec fn supported_list_text() -> Seq<char> {
    "[\"small\", \"default\", \"large\"]"@
}

/// A sequence of characters with ASCII upper case letters made lower case.
pub open spec fn lower_seq(s: Seq<char>) -> Seq<char> {
    Seq::new(s.len(), |i: int| ascii_lower(s[i]))
}

/// What parsing a pipe type name gives: the predefined type whose name the text is,
/// ignoring case, or an error message.
pub open spec fn pipe_type_from_text(s: Seq<char>) -> Result<PipeType, Seq<char>> {
    if lower_seq(s) == "small"@ {
        Ok(PipeType::Small)
    } else if lower_seq(s) == "default"@ {
        Ok(PipeType::Default)
    } else if lower_seq(s) == "large"@ {
        Ok(PipeType::Large)
    } else {
        Err("不支持的管道类型: '"@ + s + "'. 支持的类型: "@ + supported_list_text())
    }
}

/// Law: a pipe type name is read ignoring the case of its ASCII letters: `small`,
/// `default` and `large` name the three predefined types, and every other text is
/// refused.
pub proof fn lemma_pipe_type_names(s: Seq<char>)
    ensures
        ({
            let l = Seq::new(s.len(), |i: int| ascii_lower(s[i]));
            &&& pipe_type_from_text(s) == Ok::<PipeType, Seq<char>>(PipeType::Small) <==> l == "small"@
            &&& pipe_type_from_text(s) == Ok::<PipeType, Seq<char>>(PipeType::Default) <==> l == "default"@
            &&& pipe_type_from_text(s) == Ok::<PipeType, Seq<char>>(PipeType::Large) <==> l == "large"@
            &&& pipe_type_from_text(s) is Err <==> !(l == "small"@ || l == "default"@ || l == "large"@)
        }),
{
    assert(Seq::new(s.len(), |i: int| ascii_lower(s[i])) =~= lower_seq(s));
    reveal_strlit("small");
    reveal_strlit("default");
    reveal_strlit("large");
    assert("small"@[0] != "large"@[0]);
    assert("small"@.len() != "default"@.len() && "large"@.len() != "default"@.len());
}

/// The sizes that a factory can lay a pipe out with.
pub open spec fn is_supported_layout(capacity: usize, slot_size: usize) -> bool {
    ||| capacity == 50 && slot_size == 2048
    ||| capacity == 200 && slot_size == 1024
    ||| capacity == 500 && slot_size == 512
    ||| capacity == 20 && slot_size == 16384
    ||| capacity == 10 && slot_size == 1024
    ||| capacity == 100 && slot_size == 4096
    ||| capacity == 1000 && slot_size == 8192
}

/// Law: the layouts a factory accepts are exactly the predefined ones (small 10 x 1024,
/// default 100 x 4096, large 1000 x 8192) and the custom sizes 50 x 2048, 200 x 1024,
/// 500 x 512 and 20 x 16384; a custom type of any other sizes is refused.
pub proof fn lemma_supported_layouts(capacity: usize, slot_size: usize)
    ensures
        is_supported_layout(capacity, slot_size) <==> {
            ||| (capacity, slot_size) == (10usize, 1024usize)
            ||| (capacity, slot_size) == (100usize, 4096usize)
            ||| (capacity, slot_size) == (1000usize, 8192usize)
            ||| (capacity, slot_size) == (50usize, 2048usize)
            ||| (capacity, slot_size) == (200usize, 1024usize)
            ||| (capacity, slot_size) == (500usize, 512usize)
            ||| (capacity, slot_size) == (20usize, 16384usize)
        },
        type_config(PipeType::Small) == (PipeConfig { capacity: 10, slot_size: 1024 }),
        type_config(PipeType::Default) == (PipeConfig { capacity: 100, slot_size: 4096 }),
        type_config(PipeType::Large) == (PipeConfig { capacity: 1000, slot_size: 8192 }),
{
}

/// The message for custom sizes that no layout exists for.
pub open spec fn unsupported_layout_text(capacity: usize, slot_size: usize) -> Seq<char> {
    "不支持的自定义配置: capacity="@ + decimal(capacity as nat) + ", slot_size="@ + decimal(
        slot_size as nat,
    ) + ". 请使用预定义配置或添加支持的自定义配置"@
}

/// The message for a configuration that is not the one a pipe was built for.
pub open spec fn mismatch_text(expected: PipeConfig, actual: PipeConfig) -> Seq<char> {
    "配置不匹配：期望 capacity="@ + decimal(expected.capacity as nat) + ", slot_size="@
        + decimal(expected.slot_size as nat) + "，实际 capacity="@ + decimal(
        actual.capacity as nat,
    ) + ", slot_size="@ + decimal(actual.slot_size as nat)
}

/// Lower-cases the ASCII letters of `s`.
fn lower_ascii(s: &str) -> (r: Vec<char>)
    ensures
        r@ == lower_seq(s@),
{
    let cs = chars_of(s);
    let mut r: Vec<char> = Vec::new();
    let mut i: usize = 0;
    while i < cs.len()
        invariant
            i <= cs.len(),
            cs@ == s@,
            r@ == Seq::new(i as nat, |k: int| ascii_lower(cs@[k])),
        decreases cs.len() - i,
    {
        let c = cs[i];
        let l = if 'A' <= c && c <= 'Z' {
            char_plus_32(c)
        } else {
            c
        };
        r.push(l);
        i = i + 1;
        assert(r@ =~= Seq::new(i as nat, |k: int| ascii_lower(cs@[k])));
    }
    r
}

/// The lower-case letter of an upper-case ASCII letter.
fn char_plus_32(c: char) -> (r: char)
    requires
        'A' <= c && c <= 'Z',
    ensures
        r == ascii_lower(c),
{
    let b: u8 = (c as u32) as u8;
    let l: u8 = b + 32;
    l as char
}

/// Whether a character sequence equals a literal.
fn chars_equal(a: &Vec<char>, b: &str) -> (r: bool)
    ensures
        r == (a@ == b@),
{
    let bs = chars_of(b);
    if a.len() != bs.len() {
        return false;
    }
    let mut i: usize = 0;
    while i < a.len()
        invariant
            i <= a.len(),
            a.len() == bs.len(),
            bs@ == b@,
            forall|k: int| 0 <= k < i ==> a@[k] == bs@[k],
        decreases a.len() - i,
    {
        if a[i] != bs[i] {
            return false;
        }
        i = i + 1;
    }
    assert(a@ =~= bs@);
    true
}

impl PipeType {
    /// The configuration of this pipe type.
    pub fn config(&self) -> (c: PipeConfig)
        ensures
            c == type_config(*self),
    {
        match self {
            PipeType::Small => PipeConfig::small(),
            PipeType::Default => PipeConfig::default(),
            PipeType::Large => PipeConfig::large(),
            PipeType::Custom(capacity, slot_size) => PipeConfig::new(*capacity, *slot_size),
        }
    }

    /// The pipe type of a configuration.
    pub fn from_config(config: PipeConfig) -> (t: PipeType)
        ensures
            t == config_type_of(config),
    {
        if config.capacity == 10 && config.slot_size == 1024 {
            PipeType::Small
        } else if config.capacity == 100 && config.slot_size == 4096 {
            PipeType::Default
        } else if config.capacity == 1000 && config.slot_size == 8192 {
            PipeType::Large
        } else {
            PipeType::Custom(config.capacity, config.slot_size)
        }
    }

    /// The names of the predefined pipe types.
    pub fn supported_types() -> (v: Vec<&'static str>)
        ensures
            v@.len() == 3,
            v@[0]@ == "small"@,
            v@[1]@ == "default"@,
            v@[2]@ == "large"@,
    {
        let mut v: Vec<&'static str> = Vec::new();
        v.push("small");
        v.push("default");
        v.push("large");
        v
    }

    /// Parses the name of a predefined pipe type, ignoring ASCII case.
    pub fn parse(s: &str) -> (r: Result<PipeType, String>)
        ensures
            match (r, pipe_type_from_text(s@)) {
                (Ok(t), Ok(u)) => t == u,
                (Err(m), Err(n)) => m@ == n,
                _ => false,
            },
    {
        let l = lower_ascii(s);
        if chars_equal(&l, "small") {
            Ok(PipeType::Small)
        } else if chars_equal(&l, "default") {
            Ok(PipeType::Default)
        } else if chars_equal(&l, "large") {
            Ok(PipeType::Large)
        } else {
            let mut m = String::from_str("不支持的管道类型: '");
            m.append(s);
            m.append("'. 支持的类型: ");
            m.append("[\"small\", \"default\", \"large\"]");
            Err(m)
        }
    }

    /// The name of the pipe type: `small`, `default`, `large` or `custom(CxS)`.
    pub fn to_string(&self) -> (s: String)
        ensures
            s@ == match *self {
                PipeType::Small => "small"@,
                PipeType::Default => "default"@,
                PipeType::Large => "large"@,
                PipeType::Custom(c, z) => "custom("@ + decimal(c as nat) + "x"@ + decimal(
                    z as nat,
                ) + ")"@,
            },
    {
        match self {
            PipeType::Small => String::from_str("small"),
            PipeType::Default => String::from_str("default"),
            PipeType::Large => String::from_str("large"),
            PipeType::Custom(c, z) => {
                let mut s = String::from_str("custom(");
                push_decimal(&mut s, *c as u64);
                s.append("x");
                push_decimal(&mut s, *z as u64);
                s.append(")");
                s
            },
        }
    }
}

impl PipeConfig {
    /// A configuration of `capacity` slots of `slot_size` bytes.
    pub fn new(capacity: usize, slot_size: usize) -> (c: PipeConfig)
        ensures
            c.capacity == capacity,
            c.slot_size == slot_size,
    {
        PipeConfig { capacity, slot_size }
    }

    /// The default configuration: 100 slots of 4 KiB.
    pub fn default() -> (c: PipeConfig)
        ensures
            c == type_config(PipeType::Default),
    {
        PipeConfig { capacity: 100, slot_size: 4096 }
    }

    /// The small configuration: 10 slots of 1 KiB.
    pub fn small() -> (c: PipeConfig)
        ensures
            c == type_config(PipeType::Small),
    {
        PipeConfig { capacity: 10, slot_size: 1024 }
    }

    /// The large configuration: 1000 slots of 8 KiB.
    pub fn large() -> (c: PipeConfig)
        ensures
            c == type_config(PipeType::Large),
    {
        PipeConfig { capacity: 1000, slot_size: 8192 }
    }

    /// The configuration of a predefined pipe type given by name.
    pub fn from_str(s: &str) -> (r: Result<PipeConfig, String>)
        ensures
            match (r, pipe_type_from_text(s@)) {
                (Ok(c), Ok(t)) => c == type_config(t),
                (Err(m), Err(n)) => m@ == n,
                _ => false,
            },
    {
        let t = PipeType::parse(s)?;
        Ok(t.config())
    }

    /// Checks the sizes: neither may be 0, at most 10000 slots of at most 1 MiB.
    pub fn validate(&self) -> (r: Result<(), String>)
        ensures
            match r {
                Ok(()) => self.valid(),
                Err(m) => !self.valid() && m@ == self.validation_error(),
            },
    {
        if self.capacity == 0 {
            return Err(String::from_str("容量不能为0"));
        }
        if self.slot_size == 0 {
            return Err(String::from_str("槽大小不能为0"));
        }
        if self.capacity > 10000 {
            return Err(String::from_str("容量过大，最大支持10000"));
        }
        if self.slot_size > 1024 * 1024 {
            return Err(String::from_str("槽大小过大，最大支持1MB"));
        }
        Ok(())
    }

    /// Whether the sizes pass `validate`.
    pub open spec fn valid(&self) -> bool {
        0 < self.capacity <= 10000 && 0 < self.slot_size <= 1024 * 1024
    }

    /// The message of the first check that the sizes fail.
    pub open spec fn validation_error(&self) -> Seq<char> {
        if self.capacity == 0 {
            "容量不能为0"@
        } else if self.slot_size == 0 {
            "槽大小不能为0"@
        } else if self.capacity > 10000 {
            "容量过大，最大支持10000"@
        } else {
            "槽大小过大，最大支持1MB"@
        }
    }

    /// The memory the slots take in bytes.
    pub fn total_memory(&self) -> (m: usize)
        requires
            self.capacity * self.slot_size <= usize::MAX,
        ensures
            m == self.capacity * self.slot_size,
    {
        self.capacity * self.slot_size
    }

    /// Whether the sizes are those of a predefined type.
    pub fn is_predefined(&self) -> (b: bool)
        ensures
            b == !(config_type_of(*self) is Custom),
    {
        (self.capacity == 10 && self.slot_size == 1024) || (self.capacity == 100 && self.slot_size
            == 4096) || (self.capacity == 1000 && self.slot_size == 8192)
    }

    /// The name of the kind of the configuration.
    pub fn config_type(&self) -> (s: &'static str)
        ensures
            s@ == match config_type_of(*self) {
                PipeType::Small => "Small"@,
                PipeType::Default => "Default"@,
                PipeType::Large => "Large"@,
                PipeType::Custom(_, _) => "Custom"@,
            },
    {
        if self.capacity == 10 && self.slot_size == 1024 {
            "Small"
        } else if self.capacity == 100 && self.slot_size == 4096 {
            "Default"
        } else if self.capacity == 1000 && self.slot_size == 8192 {
            "Large"
        } else {
            "Custom"
        }
    }

    /// The pipe type of the configuration.
    pub fn to_pipe_type(&self) -> (t: PipeType)
        ensures
            t == config_type_of(*self),
    {
        PipeType::from_config(*self)
    }

    /// Whether two configurations have the same sizes.
    pub fn is_compatible(&self, other: &PipeConfig) -> (b: bool)
        ensures
            b == (self.capacity == other.capacity && self.slot_size == other.slot_size),
    {
        self.capacity == other.capacity && self.slot_size == other.slot_size
    }

    /// Advice on the sizes, in this order: the memory exceeds 100 MiB; many slots are
    /// small; few slots are large; the sizes are not predefined.
    pub fn performance_suggestions(&self) -> (v: Vec<String>)
        requires
            self.capacity * self.slot_size <= usize::MAX,
        ensures
            v@.map_values(|s: String| s@) == self.suggestions(),
    {
        let mut v: Vec<String> = Vec::new();
        let ghost mut g: Seq<Seq<char>> = Seq::empty();
        if self.total_memory() > 100 * 1024 * 1024 {
            v.push(String::from_str("内存使用量较大，考虑减少容量或槽大小"));
            proof { g = g.push("内存使用量较大，考虑减少容量或槽大小"@); }
        }
        assert(v@.map_values(|s: String| s@) =~= g);
        if self.capacity > 1000 && self.slot_size < 1024 {
            v.push(String::from_str("高容量配置建议使用更大的槽大小以提高性能"));
            proof { g = g.push("高容量配置建议使用更大的槽大小以提高性能"@); }
        }
        assert(v@.map_values(|s: String| s@) =~= g);
        if self.capacity < 10 && self.slot_size > 8192 {
            v.push(String::from_str("低容量配置使用大槽大小可能造成内存浪费"));
            proof { g = g.push("低容量配置使用大槽大小可能造成内存浪费"@); }
        }
        assert(v@.map_values(|s: String| s@) =~= g);
        if !self.is_predefined() {
            v.push(String::from_str("考虑使用预定义配置以获得更好的性能优化"));
            proof { g = g.push("考虑使用预定义配置以获得更好的性能优化"@); }
        }
        assert(v@.map_values(|s: String| s@) =~= g);
        assert(g =~= self.suggestions());
        v
    }

    /// The advice that `performance_suggestions` gives.
    pub open spec fn suggestions(&self) -> Seq<Seq<char>> {
        let s1 = if self.capacity * self.slot_size > 100 * 1024 * 1024 {
            seq!["内存使用量较大，考虑减少容量或槽大小"@]
        } else {
            Seq::empty()
        };
        let s2 = if self.capacity > 1000 && self.slot_size < 1024 {
            seq!["高容量配置建议使用更大的槽大小以提高性能"@]
        } else {
            Seq::empty()
        };
        let s3 = if self.capacity < 10 && self.slot_size > 8192 {
            seq!["低容量配置使用大槽大小可能造成内存浪费"@]
        } else {
            Seq::empty()
        };
        let s4 = if config_type_of(*self) is Custom {
            seq!["考虑使用预定义配置以获得更好的性能优化"@]
        } else {
            Seq::empty()
        };
        s1 + s2 + s3 + s4
    }

    /// Checks that this configuration is `expected`, the one a pipe was built for.
    pub fn check_matches(&self, expected: PipeConfig) -> (r: Result<(), String>)
        ensures
            match r {
                Ok(()) => *self == expected,
                Err(m) => *self != expected && m@ == mismatch_text(expected, *self),
            },
    {
        if self.capacity != expected.capacity || self.slot_size != expected.slot_size {
            let mut m = String::from_str("配置不匹配：期望 capacity=");
            push_decimal(&mut m, expected.capacity as u64);
            m.append(", slot_size=");
            push_decimal(&mut m, expected.slot_size as u64);
            m.append("，实际 capacity=");
            push_decimal(&mut m, self.capacity as u64);
            m.append(", slot_size=");
            push_decimal(&mut m, self.slot_size as u64);
            return Err(m);
        }
        Ok(())
    }

    /// The layout a pipe of this configuration gets: the configuration is validated,
    /// then its type is resolved as `PipeFactory::layout` resolves it.
    pub fn pipe_layout(&self) -> (r: Result<PipeConfig, String>)
        ensures
            match r {
                Ok(c) => self.valid() && is_supported_layout(self.capacity, self.slot_size) && c
                    == *self,
                Err(m) => if !self.valid() {
                    m@ == self.validation_error()
                } else {
                    !is_supported_layout(self.capacity, self.slot_size) && m@
                        == unsupported_layout_text(self.capacity, self.slot_size)
                },
            },
    {
        self.validate()?;
        PipeFactory::layout(PipeType::from_config(*self))
    }
}

/// Chooses the layout of pipes for pipe types.
pub struct PipeFactory;

impl PipeFactory {
    /// The layout of a pipe of type `t`: the predefined sizes, or custom sizes that a
    /// layout exists for; other custom sizes are refused.
    pub fn layout(t: PipeType) -> (r: Result<PipeConfig, String>)
        ensures
            match r {
                Ok(c) => c == type_config(t) && is_supported_layout(c.capacity, c.slot_size),
                Err(m) => t is Custom && !is_supported_layout(
                    type_config(t).capacity,
                    type_config(t).slot_size,
                ) && m@ == unsupported_layout_text(
                    type_config(t).capacity,
                    type_config(t).slot_size,
                ),
            },
    {
        match t {
            PipeType::Small => Ok(PipeConfig::small()),
            PipeType::Default => Ok(PipeConfig::default()),
            PipeType::Large => Ok(PipeConfig::large()),
            PipeType::Custom(capacity, slot_size) => {
                if (capacity == 50 && slot_size == 2048) || (capacity == 200 && slot_size == 1024)
                    || (capacity == 500 && slot_size == 512) || (capacity == 20 && slot_size
                    == 16384) || (capacity == 10 && slot_size == 1024) || (capacity == 100
                    && slot_size == 4096) || (capacity == 1000 && slot_size == 8192) {
                    Ok(PipeConfig::new(capacity, slot_size))
                } else {
                    let mut m = String::from_str("不支持的自定义配置: capacity=");
                    push_decimal(&mut m, capacity as u64);
                    m.append(", slot_size=");
                    push_decimal(&mut m, slot_size as u64);
                    m.append(". 请使用预定义配置或添加支持的自定义配置");
                    Err(m)
                }
            },
        }
    }

    /// The layout of a pipe of the type named by `s`.
    pub fn layout_from_str(s: &str) -> (r: Result<PipeConfig, String>)
        ensures
            match (r, pipe_type_from_text(s@)) {
                (Ok(c), Ok(t)) => c == type_config(t),
                (Err(m), Err(n)) => m@ == n,
                _ => false,
            },
    {
        let t = PipeType::parse(s)?;
        PipeFactory::layout(t)
    }

    /// The layout of a pipe of the type of `config`.
    pub fn layout_with_config(config: PipeConfig) -> (r: Result<PipeConfig, String>)
        ensures
            match r {
                Ok(c) => c == config && is_supported_layout(c.capacity, c.slot_size),
                Err(m) => !is_supported_layout(config.capacity, config.slot_size) && m@
                    == unsupported_layout_text(config.capacity, config.slot_size),
            },
    {
        PipeFactory::layout(PipeType::from_config(config))
    }
}

} // verus!
