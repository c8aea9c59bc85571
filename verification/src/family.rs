use vstd::prelude::*;

verus! {

/// The family/type of ignore file
#[derive(Debug, Clone, Copy, PartialEq, Eq, Hash, Structural)]
pub enum Family {
    /// .gitignore files (Git standard, lowest precedence)
    Git,
    /// .aiignore files (alias for compatibility)
    Ai,
    /// .codexignore files (canonical, highest precedence)
    Codex,
}

/// The file name that holds the ignore rules of a family.
pub open spec fn family_filename(f: Family) -> Seq<char> {
    match f {
        Family::Git => ".gitignore"@,
        Family::Ai => ".aiignore"@,
        Family::Codex => ".codexignore"@,
    }
}

/// The prefix of the environment variables that control a family.
pub open spec fn family_env_prefix(f: Family) -> Seq<char> {
    match f {
        Family::Git => "GIT"@,
        Family::Ai => "AI"@,
        Family::Codex => "CODEX"@,
    }
}

/// The lower-case environment prefix, the name of a family's directory
/// under the system and user configuration roots.
pub open spec fn family_dir_name(f: Family) -> Seq<char> {
    match f {
        Family::Git => "git"@,
        Family::Ai => "ai"@,
        Family::Codex => "codex"@,
    }
}

/// The rank of a family in the processing order within one directory:
/// `.gitignore` first, `.aiignore` second, `.codexignore` last.
pub open spec fn family_rank(f: Family) -> nat {
    match f {
        Family::Git => 0,
        Family::Ai => 1,
        Family::Codex => 2,
    }
}

impl Family {
    /// Get the filename for this family
    pub fn filename(&self) -> (r: &'static str)
        ensures
            r@ == family_filename(*self),
    {
        match self {
            Family::Git => ".gitignore",
            Family::Ai => ".aiignore",
            Family::Codex => ".codexignore",
        }
    }

    /// Get the environment variable prefix for this family
    pub fn env_prefix(&self) -> (r: &'static str)
        ensures
            r@ == family_env_prefix(*self),
    {
        match self {
            Family::Git => "GIT",
            Family::Ai => "AI",
            Family::Codex => "CODEX",
        }
    }

    /// The environment prefix in lower case: the directory name of this
    /// family under `/etc` and under the user's configuration home.
    pub fn dir_name(&self) -> (r: &'static str)
        ensures
            r@ == family_dir_name(*self),
            r@ == ascii_lowercase(family_env_prefix(*self)),
    {
        proof {
            reveal_strlit("GIT");
            reveal_strlit("AI");
            reveal_strlit("CODEX");
            reveal_strlit("git");
            reveal_strlit("ai");
            reveal_strlit("codex");
            assert(ascii_lowercase("GIT"@) =~= "git"@);
            assert(ascii_lowercase("AI"@) =~= "ai"@);
            assert(ascii_lowercase("CODEX"@) =~= "codex"@);
        }
        match self {
            Family::Git => "git",
            Family::Ai => "ai",
            Family::Codex => "codex",
        }
    }
}

/// The lower-case form of an ASCII character; other characters are kept.
pub open spec fn ascii_lower_char(c: char) -> char {
    if 'A' <= c && c <= 'Z' {
        ((c as u32) + 32) as char
    } else {
        c
    }
}

/// The string with each ASCII upper-case letter replaced by its lower case.
pub open spec fn ascii_lowercase(s: Seq<char>) -> Seq<char> {
    s.map_values(|c: char| ascii_lower_char(c))
}

/// The scope/precedence level of an ignore source
#[derive(Debug, Clone, Copy, PartialEq, Eq, PartialOrd, Ord, Hash, Structural)]
pub enum Scope {
    /// System-wide ignore files (lowest precedence)
    System,
    /// User-global ignore files
    User,
    /// Project root ignore files
    ProjectRoot,
    /// Directory-level ignore files (highest precedence)
    Directory,
}

/// The precedence rank of a scope, the order its variants are declared in.
pub open spec fn scope_rank(s: Scope) -> nat {
    match s {
        Scope::System => 0,
        Scope::User => 1,
        Scope::ProjectRoot => 2,
        Scope::Directory => 3,
    }
}

} // verus!
