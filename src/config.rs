//! The pager and documentation source settings, and their names.
use vstd::prelude::*;
use crate::text::{chars_of, eq_str, string_of};

verus! {

/// The program that shows a rendered page.
#[derive(Clone, Copy, Debug, PartialEq, Eq, Structural)]
pub enum Pager {
    Vim,
    Less,
    System,
}

/// The website that pages are taken from.
#[derive(Clone, Copy, Debug, PartialEq, Eq, Structural)]
pub enum Source {
    CPlusPlus,
    CppReference,
}

/// A setting's value that names no known choice.
#[derive(Debug)]
pub enum ConfigError {
    ParsePager { input: String },
    ParseSource { input: String },
}

pub open spec fn pager_name(p: Pager) -> Seq<char> {
    match p {
        Pager::Vim => "vim"@,
        Pager::Less => "less"@,
        Pager::System => "system"@,
    }
}

pub open spec fn source_name(s: Source) -> Seq<char> {
    match s {
        Source::CPlusPlus => "cplusplus.com"@,
        Source::CppReference => "cppreference.com"@,
    }
}

impl Pager {
    /// The pager called `s`.
    pub fn try_from(s: &str) -> (r: Result<Pager, ConfigError>)
        ensures
            match r {
                Ok(p) => pager_name(p) == s@,
                Err(e) => (forall|p: Pager| pager_name(p) != s@) && e is ParsePager && e->ParsePager_input@ == s@,
            },
    {
        let v = chars_of(s);
        if eq_str(&v, "vim") {
            Ok(Pager::Vim)
        } else if eq_str(&v, "less") {
            Ok(Pager::Less)
        } else if eq_str(&v, "system") {
            Ok(Pager::System)
        } else {
            Err(ConfigError::ParsePager { input: string_of(&v) })
        }
    }

    /// The name of the pager.
    pub fn as_str(&self) -> (r: &'static str)
        ensures
            r@ == pager_name(*self),
    {
        match self {
            Pager::Vim => "vim",
            Pager::Less => "less",
            Pager::System => "system",
        }
    }
}

impl Source {
    /// The source called `s`.
    pub fn try_from(s: &str) -> (r: Result<Source, ConfigError>)
        ensures
            match r {
                Ok(x) => source_name(x) == s@,
                Err(e) => (forall|x: Source| source_name(x) != s@) && e is ParseSource && e->ParseSource_input@ == s@,
            },
    {
        let v = chars_of(s);
        if eq_str(&v, "cplusplus.com") {
            Ok(Source::CPlusPlus)
        } else if eq_str(&v, "cppreference.com") {
            Ok(Source::CppReference)
        } else {
            Err(ConfigError::ParseSource { input: string_of(&v) })
        }
    }

    /// The name of the source.
    pub fn as_str(&self) -> (r: &'static str)
        ensures
            r@ == source_name(*self),
    {
        match self {
            Source::CPlusPlus => "cplusplus.com",
            Source::CppReference => "cppreference.com",
        }
    }
}

impl Default for Pager {
    fn default() -> (r: Pager)
        ensures
            r == Pager::Vim,
    {
        Pager::Vim
    }
}

impl Default for Source {
    fn default() -> (r: Source)
        ensures
            r == Source::CPlusPlus,
    {
        Source::CPlusPlus
    }
}

/// The pager called `s`, or the default pager when no pager has that name.
pub open spec fn pager_or_default(s: Seq<char>) -> Pager {
    if s == "less"@ {
        Pager::Less
    } else if s == "system"@ {
        Pager::System
    } else {
        Pager::Vim
    }
}

/// The source called `s`, or the default source when no source has that name.
pub open spec fn source_or_default(s: Seq<char>) -> Source {
    if s == "cppreference.com"@ {
        Source::CppReference
    } else {
        Source::CPlusPlus
    }
}

impl<'a> From<&'a str> for Pager {
    fn from(s: &'a str) -> (r: Pager) {
        proof {
            reveal_strlit("vim");
            reveal_strlit("less");
            reveal_strlit("system");
            assert("vim"@.len() == 3 && "less"@.len() == 4 && "system"@.len() == 6);
            assert("vim"@ != "less"@ && "vim"@ != "system"@ && "less"@ != "system"@);
            assert(pager_name(Pager::Less) == "less"@ && pager_name(Pager::System) == "system"@);
        }
        match Pager::try_from(s) {
            Ok(p) => p,
            Err(_) => Pager::Vim,
        }
    }
}

impl<'a> vstd::std_specs::convert::FromSpecImpl<&'a str> for Pager {
    open spec fn obeys_from_spec() -> bool {
        true
    }

    open spec fn from_spec(s: &'a str) -> Pager {
        pager_or_default(s@)
    }
}

impl<'a> From<&'a str> for Source {
    fn from(s: &'a str) -> (r: Source) {
        proof {
            reveal_strlit("cplusplus.com");
            reveal_strlit("cppreference.com");
            assert("cplusplus.com"@.len() != "cppreference.com"@.len());
            assert(source_name(Source::CppReference) == "cppreference.com"@);
        }
        match Source::try_from(s) {
            Ok(x) => x,
            Err(_) => Source::CPlusPlus,
        }
    }
}

impl<'a> vstd::std_specs::convert::FromSpecImpl<&'a str> for Source {
    open spec fn obeys_from_spec() -> bool {
        true
    }

    open spec fn from_spec(s: &'a str) -> Source {
        source_or_default(s@)
    }
}

} // verus!
