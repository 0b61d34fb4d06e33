//! Organizational roles, channel categories and period settings.

use vstd::prelude::*;

use crate::strings::{all_white_space, ascii_lower, chars_eq_str, lemma_trim_padding, lenient_key, trim};

verus! {

/// Organizational role of a user.
#[derive(Debug, Clone, Copy, PartialEq, Eq, Hash, Structural)]
pub enum Role {
    Exec,
    Manager,
    Lead,
    Staff,
    Unknown,
}

/// The lower-case name of a role.
pub open spec fn role_name(r: Role) -> Seq<char> {
    match r {
        Role::Exec => "exec"@,
        Role::Manager => "manager"@,
        Role::Lead => "lead"@,
        Role::Staff => "staff"@,
        Role::Unknown => "unknown"@,
    }
}

/// The role a lenient key names; anything else is `Unknown`.
pub open spec fn role_from_key(k: Seq<char>) -> Role {
    if k == "exec"@ {
        Role::Exec
    } else if k == "manager"@ {
        Role::Manager
    } else if k == "lead"@ {
        Role::Lead
    } else if k == "staff"@ {
        Role::Staff
    } else {
        Role::Unknown
    }
}

impl Role {
    pub fn as_str(&self) -> (s: &'static str)
        ensures
            s@ == role_name(*self),
    {
        match self {
            Role::Exec => "exec",
            Role::Manager => "manager",
            Role::Lead => "lead",
            Role::Staff => "staff",
            Role::Unknown => "unknown",
        }
    }

    /// Parse a role string leniently (surrounding white space and ASCII case
    /// are ignored), falling back to `Unknown`.
    pub fn from_str_lenient(s: &str) -> (r: Role)
        ensures
            r == role_from_key(ascii_lower(trim(s@))),
    {
        let k = lenient_key(s);
        if chars_eq_str(&k, "exec") {
            Role::Exec
        } else if chars_eq_str(&k, "manager") {
            Role::Manager
        } else if chars_eq_str(&k, "lead") {
            Role::Lead
        } else if chars_eq_str(&k, "staff") {
            Role::Staff
        } else {
            Role::Unknown
        }
    }
}

/// Category of a channel.
#[derive(Debug, Clone, Copy, PartialEq, Eq, Hash, Structural)]
pub enum ChannelCategory {
    Official,
    Tech,
    Casual,
    Leadership,
    PrivateGroup,
    Unknown,
}

/// The snake-case name of a category.
pub open spec fn category_name(c: ChannelCategory) -> Seq<char> {
    match c {
        ChannelCategory::Official => "official"@,
        ChannelCategory::Tech => "tech"@,
        ChannelCategory::Casual => "casual"@,
        ChannelCategory::Leadership => "leadership"@,
        ChannelCategory::PrivateGroup => "private_group"@,
        ChannelCategory::Unknown => "unknown"@,
    }
}

/// The category a lenient key names; anything else is `Unknown`.
pub open spec fn category_from_key(k: Seq<char>) -> ChannelCategory {
    if k == "official"@ {
        ChannelCategory::Official
    } else if k == "tech"@ {
        ChannelCategory::Tech
    } else if k == "casual"@ {
        ChannelCategory::Casual
    } else if k == "leadership"@ {
        ChannelCategory::Leadership
    } else if k == "private_group"@ {
        ChannelCategory::PrivateGroup
    } else {
        ChannelCategory::Unknown
    }
}

impl ChannelCategory {
    pub fn as_str(&self) -> (s: &'static str)
        ensures
            s@ == category_name(*self),
    {
        match self {
            ChannelCategory::Official => "official",
            ChannelCategory::Tech => "tech",
            ChannelCategory::Casual => "casual",
            ChannelCategory::Leadership => "leadership",
            ChannelCategory::PrivateGroup => "private_group",
            ChannelCategory::Unknown => "unknown",
        }
    }

    /// Parse a category string leniently, falling back to `Unknown`.
    pub fn from_str_lenient(s: &str) -> (r: ChannelCategory)
        ensures
            r == category_from_key(ascii_lower(trim(s@))),
    {
        let k = lenient_key(s);
        if chars_eq_str(&k, "official") {
            ChannelCategory::Official
        } else if chars_eq_str(&k, "tech") {
            ChannelCategory::Tech
        } else if chars_eq_str(&k, "casual") {
            ChannelCategory::Casual
        } else if chars_eq_str(&k, "leadership") {
            ChannelCategory::Leadership
        } else if chars_eq_str(&k, "private_group") {
            ChannelCategory::PrivateGroup
        } else {
            ChannelCategory::Unknown
        }
    }
}

/// The fiscal year starts in April unless configured otherwise.
pub open spec fn spec_default_fiscal_start() -> u32 {
    4
}

fn default_fiscal_start() -> (m: u32)
    ensures
        m == spec_default_fiscal_start(),
{
    4
}

/// Fiscal-year configuration.
#[derive(Debug, Clone)]
pub struct FiscalSpec {
    pub fiscal_year_start_month: u32,
}

impl Default for FiscalSpec {
    fn default() -> (r: Self)
        ensures
            r.fiscal_year_start_month == spec_default_fiscal_start(),
    {
        FiscalSpec { fiscal_year_start_month: default_fiscal_start() }
    }
}

/// Analysis period specification.
#[derive(Debug, Clone)]
pub struct PeriodSpec {
    pub from: Option<String>,
    pub to: Option<String>,
    pub fiscal: FiscalSpec,
}

impl Default for PeriodSpec {
    fn default() -> (r: Self)
        ensures
            r.from is None,
            r.to is None,
            r.fiscal.fiscal_year_start_month == spec_default_fiscal_start(),
    {
        PeriodSpec { from: None, to: None, fiscal: FiscalSpec::default() }
    }
}

/// A name made of lower-case ASCII letters and `_` is its own lenient key.
proof fn lemma_lowercase_name_key(s: Seq<char>)
    requires
        s.len() > 0,
        forall|i: int| 0 <= i < s.len() ==> ('a' <= #[trigger] s[i] <= 'z') || s[i] == '_',
    ensures
        ascii_lower(trim(s)) == s,
{
    assert(!crate::strings::is_white_space(s[0]));
    assert(crate::strings::trim_start(s) == s);
    assert(!crate::strings::is_white_space(s.last()));
    assert(crate::strings::trim_end(s) == s);
    assert(ascii_lower(s) =~= s);
}

/// Parsing the name of a role gives the role back.
pub proof fn lemma_role_name_roundtrip(r: Role)
    ensures
        role_from_key(ascii_lower(trim(role_name(r)))) == r,
{
    reveal_strlit("exec");
    reveal_strlit("manager");
    reveal_strlit("lead");
    reveal_strlit("staff");
    reveal_strlit("unknown");
    lemma_lowercase_name_key(role_name(r));
}

/// Parsing the name of a channel category gives the category back.
pub proof fn lemma_category_name_roundtrip(c: ChannelCategory)
    ensures
        category_from_key(ascii_lower(trim(category_name(c)))) == c,
{
    reveal_strlit("official");
    reveal_strlit("tech");
    reveal_strlit("casual");
    reveal_strlit("leadership");
    reveal_strlit("private_group");
    reveal_strlit("unknown");
    lemma_lowercase_name_key(category_name(c));
}

/// A white-space padded, any-case spelling of a lower-case name has that
/// name as its lenient key.
proof fn lemma_padded_variant_key(p: Seq<char>, v: Seq<char>, q: Seq<char>, name: Seq<char>)
    requires
        name.len() > 0,
        forall|i: int| 0 <= i < name.len() ==> ('a' <= #[trigger] name[i] <= 'z') || name[i] == '_',
        all_white_space(p),
        all_white_space(q),
        ascii_lower(v) == name,
    ensures
        ascii_lower(trim(p + v + q)) == name,
{
    assert(v.len() == name.len());
    assert(crate::strings::ascii_lower_char(v[0]) == name[0]);
    assert(crate::strings::ascii_lower_char(v[v.len() - 1]) == name[name.len() - 1]);
    assert(!crate::strings::is_white_space(v[0]));
    assert(!crate::strings::is_white_space(v.last()));
    lemma_trim_padding(p, v, q);
}

/// Parsing a role's name in any ASCII case, padded with white space, gives
/// the role back.
pub proof fn lemma_role_lenient_roundtrip(r: Role, p: Seq<char>, v: Seq<char>, q: Seq<char>)
    requires
        all_white_space(p),
        all_white_space(q),
        ascii_lower(v) == role_name(r),
    ensures
        role_from_key(ascii_lower(trim(p + v + q))) == r,
{
    reveal_strlit("exec");
    reveal_strlit("manager");
    reveal_strlit("lead");
    reveal_strlit("staff");
    reveal_strlit("unknown");
    lemma_padded_variant_key(p, v, q, role_name(r));
    lemma_role_name_roundtrip(r);
    lemma_lowercase_name_key(role_name(r));
}

/// Parsing a channel category's name in any ASCII case, padded with white
/// space, gives the category back.
pub proof fn lemma_category_lenient_roundtrip(
    c: ChannelCategory,
    p: Seq<char>,
    v: Seq<char>,
    q: Seq<char>,
)
    requires
        all_white_space(p),
        all_white_space(q),
        ascii_lower(v) == category_name(c),
    ensures
        category_from_key(ascii_lower(trim(p + v + q))) == c,
{
    reveal_strlit("official");
    reveal_strlit("tech");
    reveal_strlit("casual");
    reveal_strlit("leadership");
    reveal_strlit("private_group");
    reveal_strlit("unknown");
    lemma_padded_variant_key(p, v, q, category_name(c));
    lemma_category_name_roundtrip(c);
    lemma_lowercase_name_key(category_name(c));
}

} // verus!
