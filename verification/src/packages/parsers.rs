//! Reading control data into the database.

use vstd::prelude::*;
use vstd::string::StringExecFns;
use crate::control::{
    alternative_of, apply_line, apply_lines, field_of, patterns_accepted, read_alternative,
    read_clause, read_clauses, read_control, read_depends, texts_of_clause, texts_of_clauses,
    texts_of_line, texts_of_lines, Cursor, ParseError, Source, KEYVAL_REGEX,
    PKGNAME_AND_VERSION_REGEX,
};
use crate::model::{Clause, Registry};
use crate::packages::{Dependency, Packages, RelVersionedPackageNum};
use crate::text::{captures, regex_accepts, split_on, split_spec, texts, trim};
use crate::version::{VersionRanks, VersionRelation};

verus! {

/// An error among the first `k` alternatives of a clause is the error of the
/// clause.
proof fn lemma_clause_error_stays(
    reg: Registry,
    pieces: Seq<Seq<char>>,
    ranks: Map<Seq<char>, u64>,
    k: int,
)
    requires
        0 <= k <= pieces.len(),
        read_clause(reg, pieces.take(k), ranks) is Err,
    ensures
        read_clause(reg, pieces, ranks) == read_clause(reg, pieces.take(k), ranks),
    decreases pieces.len(),
{
    if k == pieces.len() {
        assert(pieces.take(k) =~= pieces);
    } else {
        assert(pieces.drop_last().take(k) =~= pieces.take(k));
        lemma_clause_error_stays(reg, pieces.drop_last(), ranks, k);
    }
}

/// An error among the first `k` clauses of a declaration is the error of the
/// declaration.
proof fn lemma_clauses_error_stays(
    reg: Registry,
    parts: Seq<Seq<char>>,
    ranks: Map<Seq<char>, u64>,
    k: int,
)
    requires
        0 <= k <= parts.len(),
        read_clauses(reg, parts.take(k), ranks) is Err,
    ensures
        read_clauses(reg, parts, ranks) == read_clauses(reg, parts.take(k), ranks),
    decreases parts.len(),
{
    if k == parts.len() {
        assert(parts.take(k) =~= parts);
    } else {
        assert(parts.drop_last().take(k) =~= parts.take(k));
        lemma_clauses_error_stays(reg, parts.drop_last(), ranks, k);
    }
}

/// An error among the first `k` lines is the error of all the lines.
proof fn lemma_lines_error_stays(
    cur: Cursor,
    lines: Seq<Seq<char>>,
    ranks: Map<Seq<char>, u64>,
    source: Source,
    k: int,
)
    requires
        0 <= k <= lines.len(),
        apply_lines(cur, lines.take(k), ranks, source) is Err,
    ensures
        apply_lines(cur, lines, ranks, source) == apply_lines(cur, lines.take(k), ranks, source),
    decreases lines.len(),
{
    if k == lines.len() {
        assert(lines.take(k) =~= lines);
    } else {
        assert(lines.drop_last().take(k) =~= lines.take(k));
        lemma_lines_error_stays(cur, lines.drop_last(), ranks, source, k);
    }
}

/// The key and the value of the field that a line holds, if it holds one.
fn read_field(line: &str) -> (field: Option<(String, String)>)
    requires
        regex_accepts(KEYVAL_REGEX@),
    ensures
        match field {
            Some((key, value)) => field_of(line@) == Some((key@, value@)),
            None => field_of(line@) is None,
        },
{
    let mut groups: Vec<&str> = Vec::new();
    groups.push("key");
    groups.push("value");
    proof {
        assert(texts(groups@) =~= seq!["key"@, "value"@]);
    }
    match captures(KEYVAL_REGEX, &groups, line) {
        Some(Some(values)) => {
            proof {
                assert(values.deep_view()[0] == values@[0].deep_view());
                assert(values.deep_view()[1] == values@[1].deep_view());
            }
            match (&values[0], &values[1]) {
                (Some(key), Some(value)) => Some((key.clone(), value.clone())),
                _ => None,
            }
        },
        _ => None,
    }
}

/// The package name of an alternative, with the symbol of its relation and
/// its version where it has them.
fn read_name_and_version(piece: &str) -> (found: Option<(String, Option<String>, Option<String>)>)
    requires
        regex_accepts(PKGNAME_AND_VERSION_REGEX@),
    ensures
        match found {
            Some((name, op, ver)) => alternative_of(piece@) == Some(
                (name@, op.deep_view(), ver.deep_view()),
            ),
            None => alternative_of(piece@) is None,
        },
{
    let mut groups: Vec<&str> = Vec::new();
    groups.push("pkg");
    groups.push("op");
    groups.push("ver");
    proof {
        assert(texts(groups@) =~= seq!["pkg"@, "op"@, "ver"@]);
    }
    match captures(PKGNAME_AND_VERSION_REGEX, &groups, piece) {
        Some(Some(values)) => {
            proof {
                assert(values.deep_view()[0] == values@[0].deep_view());
                assert(values.deep_view()[1] == values@[1].deep_view());
                assert(values.deep_view()[2] == values@[2].deep_view());
            }
            match &values[0] {
                Some(name) => Some((name.clone(), values[1].clone(), values[2].clone())),
                None => None,
            }
        },
        _ => None,
    }
}

impl Packages {
    /// Reads one alternative, giving its package a number where it has none.
    fn read_alternative(&mut self, piece: &str, ranks: &VersionRanks) -> (done: Result<
        Option<RelVersionedPackageNum>,
        ParseError,
    >)
        requires
            old(self).wf(),
            regex_accepts(PKGNAME_AND_VERSION_REGEX@),
        ensures
            final(self).wf(),
            old(self)@.names.len() <= final(self)@.names.len(),
            match read_alternative(old(self)@, piece@, ranks@) {
                Ok((reg, alt)) => done matches Ok(found) && final(self)@ == reg
                    && found.deep_view() == alt,
                Err(e) => done == Err::<Option<RelVersionedPackageNum>, ParseError>(e),
            },
            done matches Ok(Some(alt)) ==> final(self)@.registered(alt.package_num),
    {
        let (name, op, ver) = match read_name_and_version(piece) {
            Some(found) => found,
            None => {
                return Ok(None);
            },
        };
        if !self.package_exists(name.as_str()) && self.package_count() >= i32::MAX as usize {
            return Err(ParseError::TooManyPackages);
        }
        let package_num = self.get_package_num_inserting(name.as_str());
        match op {
            None => Ok(Some(RelVersionedPackageNum { package_num, rel_version: None })),
            Some(symbol) => {
                let rel = match VersionRelation::from_symbol(symbol.as_str()) {
                    Some(rel) => rel,
                    None => {
                        return Err(ParseError::MalformedConstraint);
                    },
                };
                let text = match ver {
                    Some(text) => text,
                    None => {
                        return Err(ParseError::MalformedConstraint);
                    },
                };
                match ranks.version(text.as_str()) {
                    Some(required) => Ok(
                        Some(RelVersionedPackageNum { package_num, rel_version: Some((rel, required)) }),
                    ),
                    None => Err(ParseError::MalformedVersion),
                }
            },
        }
    }

    /// Reads the alternatives of one clause, which bars separate.
    fn read_clause(&mut self, part: &str, ranks: &VersionRanks) -> (done: Result<
        Dependency,
        ParseError,
    >)
        requires
            old(self).wf(),
            regex_accepts(PKGNAME_AND_VERSION_REGEX@),
        ensures
            final(self).wf(),
            old(self)@.names.len() <= final(self)@.names.len(),
            match read_clause(old(self)@, split_spec(part@, '|'), ranks@) {
                Ok((reg, clause)) => done matches Ok(found) && final(self)@ == reg
                    && found.deep_view() == clause,
                Err(e) => done == Err::<Dependency, ParseError>(e),
            },
            done matches Ok(found) ==> forall|k: int|
                0 <= k < found.deep_view().len() ==> final(self)@.registered(
                    #[trigger] found.deep_view()[k].package_num,
                ),
    {
        let pieces = split_on(part, '|');
        let ghost start = self@;
        let ghost all = split_spec(part@, '|');
        let mut final_dep: Dependency = Vec::new();
        let mut k: usize = 0;
        proof {
            assert(texts(pieces@).len() == pieces@.len());
            assert(all.take(0) =~= Seq::empty());
            assert(final_dep.deep_view() =~= Seq::empty());
        }
        while k < pieces.len()
            invariant
                k <= pieces.len(),
                self.wf(),
                regex_accepts(PKGNAME_AND_VERSION_REGEX@),
                start == old(self)@,
                all == split_spec(part@, '|'),
                all == texts(pieces@),
                all.len() == pieces@.len(),
                start.names.len() <= self@.names.len(),
                read_clause(start, all.take(k as int), ranks@) == Ok::<
                    (Registry, Clause),
                    ParseError,
                >((self@, final_dep.deep_view())),
                forall|m: int|
                    0 <= m < final_dep.deep_view().len() ==> self@.registered(
                        #[trigger] final_dep.deep_view()[m].package_num,
                    ),
            decreases pieces.len() - k,
        {
            proof {
                assert(all.take(k + 1).drop_last() =~= all.take(k as int));
                assert(all.take(k + 1).last() == pieces@[k as int]@);
            }
            let ghost before = final_dep.deep_view();
            match self.read_alternative(pieces[k], ranks) {
                Err(e) => {
                    proof {
                        lemma_clause_error_stays(start, all, ranks@, k + 1);
                    }
                    return Err(e);
                },
                Ok(None) => {},
                Ok(Some(alt)) => {
                    final_dep.push(alt);
                    proof {
                        assert(final_dep.deep_view() =~= before.push(alt.deep_view()));
                    }
                },
            }
            k += 1;
        }
        proof {
            assert(all.take(pieces.len() as int) =~= all);
        }
        Ok(final_dep)
    }

    /// Reads the clauses of a declaration, which commas separate.
    fn read_depends(&mut self, value: &str, ranks: &VersionRanks) -> (done: Result<
        Vec<Dependency>,
        ParseError,
    >)
        requires
            old(self).wf(),
            regex_accepts(PKGNAME_AND_VERSION_REGEX@),
        ensures
            final(self).wf(),
            old(self)@.names.len() <= final(self)@.names.len(),
            match read_depends(old(self)@, value@, ranks@) {
                Ok((reg, clauses)) => done matches Ok(found) && final(self)@ == reg
                    && found.deep_view() == clauses,
                Err(e) => done == Err::<Vec<Dependency>, ParseError>(e),
            },
            done matches Ok(found) ==> final(self)@.clauses_wf(found.deep_view()),
    {
        let parts = split_on(value, ',');
        let ghost start = self@;
        let ghost all = split_spec(value@, ',');
        let mut final_deps: Vec<Dependency> = Vec::new();
        let mut j: usize = 0;
        proof {
            assert(texts(parts@).len() == parts@.len());
            assert(all.take(0) =~= Seq::empty());
            assert(final_deps.deep_view() =~= Seq::empty());
        }
        while j < parts.len()
            invariant
                j <= parts.len(),
                self.wf(),
                regex_accepts(PKGNAME_AND_VERSION_REGEX@),
                start == old(self)@,
                all == split_spec(value@, ','),
                all == texts(parts@),
                all.len() == parts@.len(),
                start.names.len() <= self@.names.len(),
                read_clauses(start, all.take(j as int), ranks@) == Ok::<
                    (Registry, Seq<Clause>),
                    ParseError,
                >((self@, final_deps.deep_view())),
                self@.clauses_wf(final_deps.deep_view()),
            decreases parts.len() - j,
        {
            proof {
                assert(all.take(j + 1).drop_last() =~= all.take(j as int));
                assert(all.take(j + 1).last() == parts@[j as int]@);
            }
            let ghost before = final_deps.deep_view();
            let ghost names_before = self@.names.len();
            match self.read_clause(parts[j], ranks) {
                Err(e) => {
                    proof {
                        lemma_clauses_error_stays(start, all, ranks@, j + 1);
                    }
                    return Err(e);
                },
                Ok(final_dep) => {
                    if final_dep.len() == 0 {
                        proof {
                            lemma_clauses_error_stays(start, all, ranks@, j + 1);
                        }
                        return Err(ParseError::EmptyClause);
                    }
                    let ghost clause = final_dep.deep_view();
                    final_deps.push(final_dep);
                    proof {
                        assert(final_deps.deep_view() =~= before.push(clause));
                        assert forall|m: int| 0 <= m < final_deps.deep_view().len() implies self@.clause_wf(
                            #[trigger] final_deps.deep_view()[m],
                        ) by {
                            if m < before.len() {
                                assert(final_deps.deep_view()[m] == before[m]);
                                assert(forall|n: int|
                                    0 <= n < before[m].len() ==> #[trigger] before[m][n].package_num
                                        < names_before);
                            }
                        }
                    }
                },
            }
            j += 1;
        }
        proof {
            assert(all.take(parts.len() as int) =~= all);
        }
        Ok(final_deps)
    }

    /// Applies one line of control data. `current` is the number of the
    /// package that the line's field is about.
    fn apply_line(
        &mut self,
        current: &mut i32,
        line: &str,
        ranks: &VersionRanks,
        source: Source,
    ) -> (done: Result<(), ParseError>)
        requires
            old(self).wf(),
            patterns_accepted(),
        ensures
            final(self).wf(),
            match apply_line(
                Cursor { reg: old(self)@, current: *old(current) },
                line@,
                ranks@,
                source,
            ) {
                Ok(cur) => done is Ok && final(self)@ == cur.reg && *final(current) == cur.current,
                Err(e) => done == Err::<(), ParseError>(e),
            },
    {
        let (key, value) = match read_field(line) {
            Some(field) => field,
            None => {
                return Ok(());
            },
        };
        let on_offer = match source {
            Source::Installed => false,
            Source::Available => true,
        };
        if key == String::from_str("Package") {
            if !self.package_exists(value.as_str()) && self.package_count() >= i32::MAX as usize {
                return Err(ParseError::TooManyPackages);
            }
            *current = self.get_package_num_inserting(value.as_str());
            Ok(())
        } else if key == String::from_str("Version") {
            let debver = match ranks.version(trim(value.as_str())) {
                Some(version) => version,
                None => {
                    return Err(ParseError::MalformedVersion);
                },
            };
            // a version for a package that is not known is dropped
            let _ = if on_offer {
                self.set_available(*current, debver)
            } else {
                self.set_installed(*current, debver)
            };
            Ok(())
        } else if on_offer && key == String::from_str("MD5sum") {
            let _ = self.set_md5sum(*current, String::from_str(trim(value.as_str())));
            Ok(())
        } else if on_offer && key == String::from_str("Depends") {
            let final_deps = match self.read_depends(value.as_str(), ranks) {
                Ok(deps) => deps,
                Err(e) => {
                    return Err(e);
                },
            };
            let _ = self.set_dependencies(*current, final_deps);
            Ok(())
        } else {
            Ok(())
        }
    }

    /// Reads control data, line by line, from package number 0 on.
    fn load(&mut self, lines: &Vec<String>, ranks: &VersionRanks, source: Source) -> (done: Result<
        (),
        ParseError,
    >)
        requires
            old(self).wf(),
        ensures
            final(self).wf(),
            match read_control(old(self)@, lines.deep_view(), ranks@, source) {
                Ok(reg) => done is Ok && final(self)@ == reg,
                Err(e) => done == Err::<(), ParseError>(e),
            },
    {
        if !patterns_compile() {
            return Err(ParseError::BadPattern);
        }
        let ghost start = Cursor { reg: self@, current: 0 };
        let ghost all = lines.deep_view();
        let mut current_package_num: i32 = 0;
        let mut i: usize = 0;
        proof {
            assert(all.take(0) =~= Seq::empty());
        }
        while i < lines.len()
            invariant
                i <= lines.len(),
                self.wf(),
                patterns_accepted(),
                start.reg == old(self)@,
                start.current == 0,
                all == lines.deep_view(),
                apply_lines(start, all.take(i as int), ranks@, source) == Ok::<Cursor, ParseError>(
                    Cursor { reg: self@, current: current_package_num },
                ),
            decreases lines.len() - i,
        {
            proof {
                assert(all.take(i + 1).drop_last() =~= all.take(i as int));
                assert(all.take(i + 1).last() == lines@[i as int]@);
            }
            match self.apply_line(&mut current_package_num, lines[i].as_str(), ranks, source) {
                Ok(()) => {},
                Err(e) => {
                    proof {
                        lemma_lines_error_stays(start, all, ranks@, source, i + 1);
                    }
                    return Err(e);
                },
            }
            i += 1;
        }
        proof {
            assert(all.take(lines.len() as int) =~= all);
        }
        Ok(())
    }

    /// Reads the record of what is installed: each `Package` field names a
    /// package, each `Version` field gives the installed version of the
    /// package named last. On an error the packages read so far stay in the
    /// database.
    pub fn parse_installed(&mut self, lines: &Vec<String>, ranks: &VersionRanks) -> (done: Result<
        (),
        ParseError,
    >)
        requires
            old(self).wf(),
        ensures
            final(self).wf(),
            match read_control(old(self)@, lines.deep_view(), ranks@, Source::Installed) {
                Ok(reg) => done is Ok && final(self)@ == reg,
                Err(e) => done == Err::<(), ParseError>(e),
            },
    {
        self.load(lines, ranks, Source::Installed)
    }

    /// Reads the list of what is on offer: each `Package` field names a
    /// package, and the `Version`, `MD5sum` and `Depends` fields give the
    /// version on offer, the checksum and the dependencies of the package
    /// named last. On an error the packages read so far stay in the database.
    pub fn parse_packages(&mut self, lines: &Vec<String>, ranks: &VersionRanks) -> (done: Result<
        (),
        ParseError,
    >)
        requires
            old(self).wf(),
        ensures
            final(self).wf(),
            match read_control(old(self)@, lines.deep_view(), ranks@, Source::Available) {
                Ok(reg) => done is Ok && final(self)@ == reg,
                Err(e) => done == Err::<(), ParseError>(e),
            },
    {
        self.load(lines, ranks, Source::Available)
    }
}

/// Whether the regex engine accepts the two patterns of control data.
fn patterns_compile() -> (accepted: bool)
    ensures
        accepted == patterns_accepted(),
{
    let groups: Vec<&str> = Vec::new();
    captures(KEYVAL_REGEX, &groups, "").is_some() && captures(
        PKGNAME_AND_VERSION_REGEX,
        &groups,
        "",
    ).is_some()
}

/// Appends to `found` the versions that the alternatives of one clause
/// require.
fn collect_clause_texts(part: &str, found: &mut Vec<String>)
    requires
        regex_accepts(PKGNAME_AND_VERSION_REGEX@),
    ensures
        final(found).deep_view() == old(found).deep_view() + texts_of_clause(
            split_spec(part@, '|'),
        ),
{
    let pieces = split_on(part, '|');
    let ghost start = found.deep_view();
    let ghost all = split_spec(part@, '|');
    let mut k: usize = 0;
    proof {
        assert(texts(pieces@).len() == pieces@.len());
        assert(all.take(0) =~= Seq::empty());
        assert(found.deep_view() =~= start + texts_of_clause(all.take(0)));
    }
    while k < pieces.len()
        invariant
            k <= pieces.len(),
            regex_accepts(PKGNAME_AND_VERSION_REGEX@),
            all == texts(pieces@),
            all.len() == pieces@.len(),
            found.deep_view() == start + texts_of_clause(all.take(k as int)),
        decreases pieces.len() - k,
    {
        proof {
            assert(all.take(k + 1).drop_last() =~= all.take(k as int));
            assert(all.take(k + 1).last() == pieces@[k as int]@);
        }
        let ghost before = found.deep_view();
        match read_name_and_version(pieces[k]) {
            Some((_, _, Some(text))) => {
                let ghost pushed = text@;
                found.push(text);
                proof {
                    assert(found.deep_view() =~= before.push(pushed));
                    assert(before.push(pushed) =~= start + texts_of_clause(all.take(k as int)).push(
                        pushed,
                    ));
                }
            },
            _ => {},
        }
        k += 1;
    }
    proof {
        assert(all.take(pieces.len() as int) =~= all);
    }
}

/// Appends to `found` the versions that the clauses of a declaration require.
fn collect_depends_texts(value: &str, found: &mut Vec<String>)
    requires
        regex_accepts(PKGNAME_AND_VERSION_REGEX@),
    ensures
        final(found).deep_view() == old(found).deep_view() + texts_of_clauses(
            split_spec(value@, ','),
        ),
{
    let parts = split_on(value, ',');
    let ghost start = found.deep_view();
    let ghost all = split_spec(value@, ',');
    let mut j: usize = 0;
    proof {
        assert(texts(parts@).len() == parts@.len());
        assert(all.take(0) =~= Seq::empty());
        assert(found.deep_view() =~= start + texts_of_clauses(all.take(0)));
    }
    while j < parts.len()
        invariant
            j <= parts.len(),
            regex_accepts(PKGNAME_AND_VERSION_REGEX@),
            all == texts(parts@),
            all.len() == parts@.len(),
            found.deep_view() == start + texts_of_clauses(all.take(j as int)),
        decreases parts.len() - j,
    {
        proof {
            assert(all.take(j + 1).drop_last() =~= all.take(j as int));
            assert(all.take(j + 1).last() == parts@[j as int]@);
        }
        let ghost before = found.deep_view();
        collect_clause_texts(parts[j], found);
        proof {
            let added = texts_of_clause(split_spec(parts@[j as int]@, '|'));
            assert(before + added =~= start + (texts_of_clauses(all.take(j as int)) + added));
        }
        j += 1;
    }
    proof {
        assert(all.take(parts.len() as int) =~= all);
    }
}

/// The versions that control data speaks of, in the order in which it does:
/// the texts that a table of ranks must hold for the data to be read.
pub fn version_texts(lines: &Vec<String>) -> (found: Result<Vec<String>, ParseError>)
    ensures
        found is Ok <==> patterns_accepted(),
        found matches Ok(list) ==> list.deep_view() == texts_of_lines(lines.deep_view()),
        found matches Err(e) ==> e == ParseError::BadPattern,
{
    if !patterns_compile() {
        return Err(ParseError::BadPattern);
    }
    let ghost all = lines.deep_view();
    let mut list: Vec<String> = Vec::new();
    let mut i: usize = 0;
    proof {
        assert(all.take(0) =~= Seq::empty());
        assert(list.deep_view() =~= texts_of_lines(all.take(0)));
    }
    while i < lines.len()
        invariant
            i <= lines.len(),
            patterns_accepted(),
            all == lines.deep_view(),
            list.deep_view() == texts_of_lines(all.take(i as int)),
        decreases lines.len() - i,
    {
        proof {
            assert(all.take(i + 1).drop_last() =~= all.take(i as int));
            assert(all.take(i + 1).last() == lines@[i as int]@);
        }
        let ghost before = list.deep_view();
        match read_field(lines[i].as_str()) {
            Some((key, value)) => {
                if key == String::from_str("Version") {
                    let text = String::from_str(trim(value.as_str()));
                    let ghost pushed = text@;
                    list.push(text);
                    proof {
                        assert(list.deep_view() =~= before + seq![pushed]);
                    }
                } else if key == String::from_str("Depends") {
                    collect_depends_texts(value.as_str(), &mut list);
                } else {
                    proof {
                        assert(before + Seq::<Seq<char>>::empty() =~= before);
                    }
                }
            },
            None => {
                proof {
                    assert(before + Seq::<Seq<char>>::empty() =~= before);
                }
            },
        }
        i += 1;
    }
    proof {
        assert(all.take(lines.len() as int) =~= all);
    }
    Ok(list)
}

} // verus!
