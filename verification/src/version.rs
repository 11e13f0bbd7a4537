//! Versions and the relations that a dependency may demand of them.
//!
//! The resolver never looks inside a version string. All it needs of a
//! version is where it stands among the others, so a [`Version`] carries its
//! text for reporting and a rank for comparing: whoever parses the text
//! assigns ranks so that a greater version has a greater rank and versions
//! that compare equal share one.

use vstd::hash_map::StringHashMap;
use vstd::prelude::*;
use vstd::string::StringExecFns;

verus! {

/// The five ways in which a dependency may constrain a version.
#[derive(Clone, Copy, Debug, PartialEq, Eq, Structural)]
pub enum VersionRelation {
    StrictlyLess,
    LessOrEqual,
    Equal,
    GreaterOrEqual,
    StrictlyGreater,
}

/// A parsed version: the text it was read from and its place in the order.
#[derive(Debug)]
pub struct Version {
    pub text: String,
    pub rank: u64,
}

/// A version as specifications see it.
pub struct VersionView {
    pub text: Seq<char>,
    pub rank: u64,
}

impl View for Version {
    type V = VersionView;

    open spec fn view(&self) -> VersionView {
        VersionView { text: self.text@, rank: self.rank }
    }
}

impl DeepView for Version {
    type V = VersionView;

    open spec fn deep_view(&self) -> VersionView {
        self@
    }
}

/// Whether a version of rank `left` stands in `rel` to one of rank `right`.
pub open spec fn relation_holds(rel: VersionRelation, left: u64, right: u64) -> bool {
    match rel {
        VersionRelation::StrictlyLess => left < right,
        VersionRelation::LessOrEqual => left <= right,
        VersionRelation::Equal => left == right,
        VersionRelation::GreaterOrEqual => left >= right,
        VersionRelation::StrictlyGreater => left > right,
    }
}

impl Version {
    pub fn new(text: String, rank: u64) -> (v: Version)
        ensures
            v@ == (VersionView { text: text@, rank }),
    {
        Version { text, rank }
    }

    /// A copy of this version.
    pub fn duplicate(&self) -> (v: Version)
        ensures
            v@ == self@,
    {
        Version { text: self.text.clone(), rank: self.rank }
    }

    /// Decides `self rel other`.
    pub fn compare(&self, rel: &VersionRelation, other: &Version) -> (holds: bool)
        ensures
            holds == relation_holds(*rel, self.rank, other.rank),
    {
        match rel {
            VersionRelation::StrictlyLess => self.rank < other.rank,
            VersionRelation::LessOrEqual => self.rank <= other.rank,
            VersionRelation::Equal => self.rank == other.rank,
            VersionRelation::GreaterOrEqual => self.rank >= other.rank,
            VersionRelation::StrictlyGreater => self.rank > other.rank,
        }
    }
}

/// The relation that a symbol of control data stands for.
pub open spec fn relation_of(symbol: Seq<char>) -> Option<VersionRelation> {
    if symbol == "<<"@ {
        Some(VersionRelation::StrictlyLess)
    } else if symbol == "<="@ {
        Some(VersionRelation::LessOrEqual)
    } else if symbol == "="@ {
        Some(VersionRelation::Equal)
    } else if symbol == ">="@ {
        Some(VersionRelation::GreaterOrEqual)
    } else if symbol == ">>"@ {
        Some(VersionRelation::StrictlyGreater)
    } else {
        None
    }
}

/// The symbol that control data writes for a relation.
pub open spec fn symbol_of(rel: VersionRelation) -> Seq<char> {
    match rel {
        VersionRelation::StrictlyLess => "<<"@,
        VersionRelation::LessOrEqual => "<="@,
        VersionRelation::Equal => "="@,
        VersionRelation::GreaterOrEqual => ">="@,
        VersionRelation::StrictlyGreater => ">>"@,
    }
}

/// Reading the symbol of a relation gives the relation back.
pub proof fn law_symbol_round_trip(rel: VersionRelation)
    ensures
        relation_of(symbol_of(rel)) == Some(rel),
{
    reveal_strlit("<<");
    reveal_strlit("<=");
    reveal_strlit("=");
    reveal_strlit(">=");
    reveal_strlit(">>");
    assert("<<"@[0] == '<' && "<<"@[1] == '<');
    assert("<="@[0] == '<' && "<="@[1] == '=');
    assert(">="@[0] == '>' && ">="@[1] == '=');
    assert(">>"@[0] == '>' && ">>"@[1] == '>');
}

impl VersionRelation {
    /// The relation that `symbol` stands for, if it stands for one.
    pub fn from_symbol(symbol: &str) -> (rel: Option<VersionRelation>)
        ensures
            rel == relation_of(symbol@),
    {
        let given = String::from_str(symbol);
        if given == String::from_str("<<") {
            Some(VersionRelation::StrictlyLess)
        } else if given == String::from_str("<=") {
            Some(VersionRelation::LessOrEqual)
        } else if given == String::from_str("=") {
            Some(VersionRelation::Equal)
        } else if given == String::from_str(">=") {
            Some(VersionRelation::GreaterOrEqual)
        } else if given == String::from_str(">>") {
            Some(VersionRelation::StrictlyGreater)
        } else {
            None
        }
    }

    /// The symbol that control data writes for this relation.
    pub fn symbol(&self) -> (symbol: &'static str)
        ensures
            symbol@ == symbol_of(*self),
    {
        match self {
            VersionRelation::StrictlyLess => "<<",
            VersionRelation::LessOrEqual => "<=",
            VersionRelation::Equal => "=",
            VersionRelation::GreaterOrEqual => ">=",
            VersionRelation::StrictlyGreater => ">>",
        }
    }
}

/// The rank of position `i` of a list of versions in ascending order, where
/// `same_as_previous` marks each version that equals the one before it: the
/// number of positions up to `i` at which a greater version begins.
pub open spec fn rank_at(same_as_previous: Seq<bool>, i: int) -> nat
    decreases i,
{
    if i <= 0 {
        0
    } else {
        rank_at(same_as_previous, i - 1) + if same_as_previous[i] {
            0nat
        } else {
            1nat
        }
    }
}

/// The table that holds the first `n` of `texts`, each with the rank of its
/// position.
pub open spec fn ranked_upto(texts: Seq<Seq<char>>, same_as_previous: Seq<bool>, n: int) -> Map<
    Seq<char>,
    u64,
>
    decreases n,
{
    if n <= 0 {
        Map::empty()
    } else {
        ranked_upto(texts, same_as_previous, n - 1).insert(
            texts[n - 1],
            rank_at(same_as_previous, n - 1) as u64,
        )
    }
}

/// Ranks follow the order of the list: a later position has no lesser rank,
/// and has the same rank exactly where every version in between equals the
/// one before it.
pub proof fn law_ranks_follow_order(same_as_previous: Seq<bool>, i: int, j: int)
    requires
        0 <= i <= j < same_as_previous.len(),
    ensures
        rank_at(same_as_previous, i) <= rank_at(same_as_previous, j),
        rank_at(same_as_previous, j) <= j,
        rank_at(same_as_previous, i) == rank_at(same_as_previous, j) <==> forall|k: int|
            i < k <= j ==> #[trigger] same_as_previous[k],
    decreases j,
{
    if j > 0 {
        if i < j {
            law_ranks_follow_order(same_as_previous, i, j - 1);
            if rank_at(same_as_previous, i) == rank_at(same_as_previous, j) {
                assert forall|k: int| i < k <= j implies #[trigger] same_as_previous[k] by {
                    if k < j {
                        assert(same_as_previous[k]);
                    }
                }
            }
        } else {
            law_ranks_follow_order(same_as_previous, 0, j - 1);
        }
    }
}

/// The order of versions, as a table from the text of a version to its rank.
///
/// The table stands for whoever can parse and compare versions: it holds the
/// texts that parsed, and ranks them so that a greater version has a greater
/// rank and equal versions share one. A text that is not in the table is
/// taken not to be a version.
pub struct VersionRanks {
    ranks: StringHashMap<u64>,
}

impl View for VersionRanks {
    type V = Map<Seq<char>, u64>;

    closed spec fn view(&self) -> Map<Seq<char>, u64> {
        self.ranks@
    }
}

impl VersionRanks {
    /// The table without any version.
    pub fn new() -> (table: VersionRanks)
        ensures
            table@ == Map::<Seq<char>, u64>::empty(),
    {
        VersionRanks { ranks: StringHashMap::new() }
    }

    /// The table of a list of versions in ascending order, where
    /// `same_as_previous` marks each version that equals the one before it:
    /// the first gets rank 0, and the rank goes up by one wherever a greater
    /// version begins. `None` where the two lists differ in length.
    pub fn from_ascending(texts: &Vec<String>, same_as_previous: &Vec<bool>) -> (table: Option<
        VersionRanks,
    >)
        ensures
            table is Some <==> texts@.len() == same_as_previous@.len(),
            table matches Some(t) ==> t@ == ranked_upto(
                texts.deep_view(),
                same_as_previous@,
                texts@.len() as int,
            ),
    {
        if texts.len() != same_as_previous.len() {
            return None;
        }
        let mut table = VersionRanks::new();
        let mut rank: u64 = 0;
        let mut i: usize = 0;
        while i < texts.len()
            invariant
                i <= texts.len(),
                texts@.len() == same_as_previous@.len(),
                table@ == ranked_upto(texts.deep_view(), same_as_previous@, i as int),
                rank == rank_at(same_as_previous@, i as int - 1),
                rank <= i,
            decreases texts.len() - i,
        {
            if i > 0 && !same_as_previous[i] {
                rank = rank + 1;
            }
            proof {
                assert(texts.deep_view()[i as int] == texts@[i as int]@);
            }
            table.insert(texts[i].as_str(), rank);
            i += 1;
        }
        Some(table)
    }

    /// Enters `text` with `rank`, in place of any rank it had.
    pub fn insert(&mut self, text: &str, rank: u64)
        ensures
            final(self)@ == old(self)@.insert(text@, rank),
    {
        self.ranks.insert(String::from_str(text), rank);
    }

    /// The version that `text` denotes, if the table ranks it.
    pub fn version(&self, text: &str) -> (found: Option<Version>)
        ensures
            found is Some <==> self@.contains_key(text@),
            found matches Some(v) ==> v@ == (VersionView { text: text@, rank: self@[text@] }),
    {
        match self.ranks.get(text) {
            Some(rank) => Some(Version { text: String::from_str(text), rank: *rank }),
            None => None,
        }
    }
}

} // verus!
