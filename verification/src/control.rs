//! The grammar of control data, and what reading it does to a database.
//!
//! Control data is a sequence of lines. A line that holds a field, `Key:
//! value`, may name the package that the following fields are about, give its
//! version or its checksum, or declare its dependencies; any other line says
//! nothing. A declaration of dependencies is a list of clauses separated by
//! commas, each a list of alternatives separated by bars, each a package name
//! that may be followed by a relation and a version in parentheses.
//!
//! Which part of a line is the key, and which part of an alternative is the
//! name, is decided by two patterns and the regex engine. This module says
//! what follows from the engine's answer.

use vstd::prelude::*;
use crate::model::{Alternative, Clause, Registry};
use crate::text::{regex_accepts, regex_captures, split_spec, trim_spec};
use crate::version::{relation_of, VersionView};

verus! {

/// The pattern of a field: a key of word characters and hyphens, a colon and a
/// space, and the value.
pub const KEYVAL_REGEX: &'static str = r"(?P<key>(\w|-)+): (?P<value>.+)";

/// The pattern of an alternative: a package name and, optionally, a relation
/// and a version in parentheses.
pub const PKGNAME_AND_VERSION_REGEX: &'static str =
    r"(?P<pkg>(\w|\.|\+|-)+)( \((?P<op>(<|=|>)(<|=|>)?) (?P<ver>.*)\))?";

/// Why control data could not be read.
#[derive(Clone, Copy, Debug, PartialEq, Eq, Structural)]
pub enum ParseError {
    /// The regex engine turns down one of the two patterns.
    BadPattern,
    /// An alternative demands a relation that is none of the five, or a
    /// relation without a version.
    MalformedConstraint,
    /// A text stands where a version is due that the table of ranks does not
    /// hold: it is no version.
    MalformedVersion,
    /// A clause is left without an alternative.
    EmptyClause,
    /// There are more packages than can be numbered.
    TooManyPackages,
}

/// Which control data is read: the record of what is installed, or the list of
/// what is on offer.
#[derive(Clone, Copy, Debug, PartialEq, Eq, Structural)]
pub enum Source {
    Installed,
    Available,
}

/// Whether the regex engine accepts both patterns.
pub open spec fn patterns_accepted() -> bool {
    regex_accepts(KEYVAL_REGEX@) && regex_accepts(PKGNAME_AND_VERSION_REGEX@)
}

/// The key and the value of the field that a line holds, if it holds one.
pub open spec fn field_of(line: Seq<char>) -> Option<(Seq<char>, Seq<char>)> {
    match regex_captures(KEYVAL_REGEX@, seq!["key"@, "value"@], line) {
        Some(groups) => if groups.len() == 2 && groups[0] is Some && groups[1] is Some {
            Some((groups[0]->0, groups[1]->0))
        } else {
            None
        },
        None => None,
    }
}

/// The package name of an alternative, with the symbol of the relation and
/// the version where it has them; `None` where the text holds no alternative.
pub open spec fn alternative_of(piece: Seq<char>) -> Option<
    (Seq<char>, Option<Seq<char>>, Option<Seq<char>>),
> {
    match regex_captures(PKGNAME_AND_VERSION_REGEX@, seq!["pkg"@, "op"@, "ver"@], piece) {
        Some(groups) => if groups.len() == 3 && groups[0] is Some {
            Some((groups[0]->0, groups[1], groups[2]))
        } else {
            None
        },
        None => None,
    }
}

/// Whether the database can give `name` a number: it has one already, or
/// there is a number left.
pub open spec fn can_intern(reg: Registry, name: Seq<char>) -> bool {
    reg.has_name(name) || reg.names.len() < i32::MAX
}

/// The database after `name` was given a number, where it had none.
pub open spec fn intern(reg: Registry, name: Seq<char>) -> Registry {
    if reg.has_name(name) {
        reg
    } else {
        Registry { names: reg.names.push(name), ..reg }
    }
}

/// The number under which [`intern`] knows `name`.
pub open spec fn interned_id(reg: Registry, name: Seq<char>) -> i32 {
    if reg.has_name(name) {
        reg.id_of(name)
    } else {
        reg.names.len() as i32
    }
}

/// Reading one alternative: its package is given a number, its relation and
/// version are looked up. `None` for a text that holds no alternative.
pub open spec fn read_alternative(
    reg: Registry,
    piece: Seq<char>,
    ranks: Map<Seq<char>, u64>,
) -> Result<(Registry, Option<Alternative>), ParseError> {
    match alternative_of(piece) {
        None => Ok((reg, None)),
        Some((name, op, ver)) => if !can_intern(reg, name) {
            Err(ParseError::TooManyPackages)
        } else {
            let package_num = interned_id(reg, name);
            match op {
                None => Ok((intern(reg, name), Some(Alternative { package_num, rel_version: None }))),
                Some(symbol) => match (relation_of(symbol), ver) {
                    (Some(rel), Some(text)) => if ranks.contains_key(text) {
                        Ok(
                            (
                                intern(reg, name),
                                Some(
                                    Alternative {
                                        package_num,
                                        rel_version: Some(
                                            (rel, VersionView { text, rank: ranks[text] }),
                                        ),
                                    },
                                ),
                            ),
                        )
                    } else {
                        Err(ParseError::MalformedVersion)
                    },
                    _ => Err(ParseError::MalformedConstraint),
                },
            }
        },
    }
}

/// Reading the alternatives of one clause, from left to right.
pub open spec fn read_clause(
    reg: Registry,
    pieces: Seq<Seq<char>>,
    ranks: Map<Seq<char>, u64>,
) -> Result<(Registry, Clause), ParseError>
    decreases pieces.len(),
{
    if pieces.len() == 0 {
        Ok((reg, Seq::empty()))
    } else {
        match read_clause(reg, pieces.drop_last(), ranks) {
            Err(e) => Err(e),
            Ok((before, alts)) => match read_alternative(before, pieces.last(), ranks) {
                Err(e) => Err(e),
                Ok((after, None)) => Ok((after, alts)),
                Ok((after, Some(alt))) => Ok((after, alts.push(alt))),
            },
        }
    }
}

/// Reading the clauses of a declaration, from left to right. A clause in
/// which no alternative is found is an error.
pub open spec fn read_clauses(
    reg: Registry,
    parts: Seq<Seq<char>>,
    ranks: Map<Seq<char>, u64>,
) -> Result<(Registry, Seq<Clause>), ParseError>
    decreases parts.len(),
{
    if parts.len() == 0 {
        Ok((reg, Seq::empty()))
    } else {
        match read_clauses(reg, parts.drop_last(), ranks) {
            Err(e) => Err(e),
            Ok((before, clauses)) => match read_clause(
                before,
                split_spec(parts.last(), '|'),
                ranks,
            ) {
                Err(e) => Err(e),
                Ok((after, clause)) => if clause.len() == 0 {
                    Err(ParseError::EmptyClause)
                } else {
                    Ok((after, clauses.push(clause)))
                },
            },
        }
    }
}

/// Reading the value of a `Depends` field.
pub open spec fn read_depends(reg: Registry, value: Seq<char>, ranks: Map<Seq<char>, u64>) -> Result<
    (Registry, Seq<Clause>),
    ParseError,
> {
    read_clauses(reg, split_spec(value, ','), ranks)
}

/// Where a reader stands: the database so far, and the number of the package
/// that the fields to come are about.
pub struct Cursor {
    pub reg: Registry,
    pub current: i32,
}

/// What one line does. `Package` moves the reader to the package named.
/// `Version` records the version of the current package, as installed or as
/// on offer. In the list of what is on offer, `MD5sum` records its checksum
/// and `Depends` its dependencies. A field about a package that the database
/// does not know is dropped, as is every other line.
pub open spec fn apply_line(
    cur: Cursor,
    line: Seq<char>,
    ranks: Map<Seq<char>, u64>,
    source: Source,
) -> Result<Cursor, ParseError> {
    match field_of(line) {
        None => Ok(cur),
        Some((key, value)) => if key == "Package"@ {
            if can_intern(cur.reg, value) {
                Ok(Cursor { reg: intern(cur.reg, value), current: interned_id(cur.reg, value) })
            } else {
                Err(ParseError::TooManyPackages)
            }
        } else if key == "Version"@ {
            let text = trim_spec(value);
            if !ranks.contains_key(text) {
                Err(ParseError::MalformedVersion)
            } else if !cur.reg.registered(cur.current) {
                Ok(cur)
            } else {
                let version = VersionView { text, rank: ranks[text] };
                match source {
                    Source::Installed => Ok(
                        Cursor {
                            reg: Registry {
                                installed: cur.reg.installed.insert(cur.current, version),
                                ..cur.reg
                            },
                            ..cur
                        },
                    ),
                    Source::Available => Ok(
                        Cursor {
                            reg: Registry {
                                available: cur.reg.available.insert(cur.current, version),
                                ..cur.reg
                            },
                            ..cur
                        },
                    ),
                }
            }
        } else if source == Source::Available && key == "MD5sum"@ {
            if cur.reg.registered(cur.current) {
                Ok(
                    Cursor {
                        reg: Registry {
                            md5sums: cur.reg.md5sums.insert(cur.current, trim_spec(value)),
                            ..cur.reg
                        },
                        ..cur
                    },
                )
            } else {
                Ok(cur)
            }
        } else if source == Source::Available && key == "Depends"@ {
            match read_depends(cur.reg, value, ranks) {
                Err(e) => Err(e),
                Ok((reg, clauses)) => if reg.registered(cur.current) {
                    Ok(
                        Cursor {
                            reg: Registry {
                                dependencies: reg.dependencies.insert(cur.current, clauses),
                                ..reg
                            },
                            ..cur
                        },
                    )
                } else {
                    Ok(Cursor { reg, ..cur })
                },
            }
        } else {
            Ok(cur)
        },
    }
}

/// What a sequence of lines does, from the first to the last.
pub open spec fn apply_lines(
    cur: Cursor,
    lines: Seq<Seq<char>>,
    ranks: Map<Seq<char>, u64>,
    source: Source,
) -> Result<Cursor, ParseError>
    decreases lines.len(),
{
    if lines.len() == 0 {
        Ok(cur)
    } else {
        match apply_lines(cur, lines.drop_last(), ranks, source) {
            Err(e) => Err(e),
            Ok(before) => apply_line(before, lines.last(), ranks, source),
        }
    }
}

/// The database that reading `lines` into `reg` gives, or the first error on
/// the way. Reading starts at package number 0.
pub open spec fn read_control(
    reg: Registry,
    lines: Seq<Seq<char>>,
    ranks: Map<Seq<char>, u64>,
    source: Source,
) -> Result<Registry, ParseError> {
    if !patterns_accepted() {
        Err(ParseError::BadPattern)
    } else {
        match apply_lines(Cursor { reg, current: 0 }, lines, ranks, source) {
            Err(e) => Err(e),
            Ok(cur) => Ok(cur.reg),
        }
    }
}

/// The versions that the alternatives of one clause require, in order.
pub open spec fn texts_of_clause(pieces: Seq<Seq<char>>) -> Seq<Seq<char>>
    decreases pieces.len(),
{
    if pieces.len() == 0 {
        Seq::empty()
    } else {
        let before = texts_of_clause(pieces.drop_last());
        match alternative_of(pieces.last()) {
            Some((_, _, Some(text))) => before.push(text),
            _ => before,
        }
    }
}

/// The versions that the clauses of a declaration require, in order.
pub open spec fn texts_of_clauses(parts: Seq<Seq<char>>) -> Seq<Seq<char>>
    decreases parts.len(),
{
    if parts.len() == 0 {
        Seq::empty()
    } else {
        texts_of_clauses(parts.drop_last()) + texts_of_clause(split_spec(parts.last(), '|'))
    }
}

/// The versions that one line speaks of: that of a `Version` field, and those
/// that the alternatives of a `Depends` field require.
pub open spec fn texts_of_line(line: Seq<char>) -> Seq<Seq<char>> {
    match field_of(line) {
        None => Seq::empty(),
        Some((key, value)) => if key == "Version"@ {
            seq![trim_spec(value)]
        } else if key == "Depends"@ {
            texts_of_clauses(split_spec(value, ','))
        } else {
            Seq::empty()
        },
    }
}

/// The versions that a sequence of lines speaks of, in order.
pub open spec fn texts_of_lines(lines: Seq<Seq<char>>) -> Seq<Seq<char>>
    decreases lines.len(),
{
    if lines.len() == 0 {
        Seq::empty()
    } else {
        texts_of_lines(lines.drop_last()) + texts_of_line(lines.last())
    }
}

/// Whether the table ranks every one of `texts`.
pub open spec fn all_ranked(texts: Seq<Seq<char>>, ranks: Map<Seq<char>, u64>) -> bool {
    forall|i: int| 0 <= i < texts.len() ==> ranks.contains_key(#[trigger] texts[i])
}

/// A table that ranks the first and the second of two lists ranks both in a
/// row, and the other way round.
proof fn lemma_all_ranked_split(a: Seq<Seq<char>>, b: Seq<Seq<char>>, ranks: Map<Seq<char>, u64>)
    ensures
        all_ranked(a + b, ranks) <==> all_ranked(a, ranks) && all_ranked(b, ranks),
{
    if all_ranked(a + b, ranks) {
        assert forall|i: int| 0 <= i < a.len() implies ranks.contains_key(#[trigger] a[i]) by {
            assert((a + b)[i] == a[i]);
        }
        assert forall|i: int| 0 <= i < b.len() implies ranks.contains_key(#[trigger] b[i]) by {
            assert((a + b)[a.len() + i] == b[i]);
        }
    }
}

/// A clause whose versions are all ranked is read without missing a rank.
proof fn lemma_clause_ranked(reg: Registry, pieces: Seq<Seq<char>>, ranks: Map<Seq<char>, u64>)
    requires
        all_ranked(texts_of_clause(pieces), ranks),
    ensures
        read_clause(reg, pieces, ranks) != Err::<(Registry, Clause), ParseError>(
            ParseError::MalformedVersion,
        ),
    decreases pieces.len(),
{
    if pieces.len() > 0 {
        let before = texts_of_clause(pieces.drop_last());
        match alternative_of(pieces.last()) {
            Some((_, _, Some(text))) => {
                assert(before.push(text) =~= before + seq![text]);
                lemma_all_ranked_split(before, seq![text], ranks);
                assert(seq![text][0] == text);
            },
            _ => {},
        }
        lemma_clause_ranked(reg, pieces.drop_last(), ranks);
    }
}

/// A declaration whose versions are all ranked is read without missing a
/// rank.
proof fn lemma_clauses_ranked(reg: Registry, parts: Seq<Seq<char>>, ranks: Map<Seq<char>, u64>)
    requires
        all_ranked(texts_of_clauses(parts), ranks),
    ensures
        read_clauses(reg, parts, ranks) != Err::<(Registry, Seq<Clause>), ParseError>(
            ParseError::MalformedVersion,
        ),
    decreases parts.len(),
{
    if parts.len() > 0 {
        lemma_all_ranked_split(
            texts_of_clauses(parts.drop_last()),
            texts_of_clause(split_spec(parts.last(), '|')),
            ranks,
        );
        lemma_clauses_ranked(reg, parts.drop_last(), ranks);
        match read_clauses(reg, parts.drop_last(), ranks) {
            Ok((before, _)) => {
                lemma_clause_ranked(before, split_spec(parts.last(), '|'), ranks);
            },
            Err(_) => {},
        }
    }
}

/// Lines whose versions are all ranked are read without missing a rank.
proof fn lemma_lines_ranked(
    cur: Cursor,
    lines: Seq<Seq<char>>,
    ranks: Map<Seq<char>, u64>,
    source: Source,
)
    requires
        all_ranked(texts_of_lines(lines), ranks),
    ensures
        apply_lines(cur, lines, ranks, source) != Err::<Cursor, ParseError>(
            ParseError::MalformedVersion,
        ),
    decreases lines.len(),
{
    if lines.len() > 0 {
        lemma_all_ranked_split(texts_of_lines(lines.drop_last()), texts_of_line(lines.last()), ranks);
        lemma_lines_ranked(cur, lines.drop_last(), ranks, source);
        match (apply_lines(cur, lines.drop_last(), ranks, source), field_of(lines.last())) {
            (Ok(before), Some((key, value))) => {
                if key == "Version"@ {
                    assert(texts_of_line(lines.last())[0] == trim_spec(value));
                } else if key == "Depends"@ {
                    lemma_clauses_ranked(before.reg, split_spec(value, ','), ranks);
                }
            },
            _ => {},
        }
    }
}

/// A table that ranks every version that the lines speak of is all that
/// reading them needs: no version is found unranked.
pub proof fn law_ranked_texts_suffice(
    reg: Registry,
    lines: Seq<Seq<char>>,
    ranks: Map<Seq<char>, u64>,
    source: Source,
)
    requires
        all_ranked(texts_of_lines(lines), ranks),
    ensures
        read_control(reg, lines, ranks, source) != Err::<Registry, ParseError>(
            ParseError::MalformedVersion,
        ),
{
    lemma_lines_ranked(Cursor { reg, current: 0 }, lines, ranks, source);
}

} // verus!
