//! Match tree: per-level records, an optional usage string, and at most one
//! active subcommand per level, nested to arbitrary depth.

use vstd::prelude::*;

use crate::matched::{MatchedArg, Record};

verus! {

/// One level of the match tree.  `args` associates each argument identifier
/// with its match record; identifiers are unique within a level.
pub struct ArgMatches {
    pub args: Vec<(String, MatchedArg)>,
    pub usage: Option<String>,
    pub subcommand: Option<Box<SubCommand>>,
}

/// The single active subcommand at some level: its name and its own match
/// tree.
pub struct SubCommand {
    pub name: String,
    pub matches: ArgMatches,
}

/// Mathematical content of one level of the match tree.
#[verifier::ext_equal]
pub ghost struct Level {
    /// The records of this level, keyed by argument identifier.
    pub records: Map<Seq<char>, Record>,
    /// The stored usage string, if any.
    pub usage: Option<Seq<char>>,
    /// The name of this level's active subcommand, if any.
    pub sub_name: Option<Seq<char>>,
}

/// No two entries of the association list share an identifier.
pub open spec fn unique_keys(s: Seq<(String, MatchedArg)>) -> bool {
    forall|i: int, j: int|
        0 <= i < j < s.len() ==> (#[trigger] s[i]).0@ != (#[trigger] s[j]).0@
}

/// Some entry of the association list carries the identifier `k`.
pub open spec fn has_key(s: Seq<(String, MatchedArg)>, k: Seq<char>) -> bool {
    exists|i: int| 0 <= i < s.len() && (#[trigger] s[i]).0@ == k
}

/// The association list seen as a mapping from identifier to record.
pub open spec fn map_of(s: Seq<(String, MatchedArg)>) -> Map<Seq<char>, Record>
    decreases s.len(),
{
    if s.len() == 0 {
        Map::empty()
    } else {
        map_of(s.drop_last()).insert(s.last().0@, s.last().1.model())
    }
}

/// The keys of `map_of` are exactly the identifiers of the entries.
pub proof fn lemma_map_of_contains(s: Seq<(String, MatchedArg)>, k: Seq<char>)
    ensures
        map_of(s).contains_key(k) <==> has_key(s, k),
    decreases s.len(),
{
    if s.len() > 0 {
        lemma_map_of_contains(s.drop_last(), k);
        if s.last().0@ == k {
            assert(s[s.len() - 1].0@ == k);
        } else {
            if has_key(s, k) {
                let i = choose|i: int| 0 <= i < s.len() && (#[trigger] s[i]).0@ == k;
                assert(s.drop_last()[i].0@ == k);
            }
            if has_key(s.drop_last(), k) {
                let i = choose|i: int|
                    0 <= i < s.drop_last().len() && (#[trigger] s.drop_last()[i]).0@ == k;
                assert(s[i].0@ == k);
            }
        }
    }
}

/// With unique identifiers, `map_of` maps each entry's identifier to that
/// entry's record.
pub proof fn lemma_map_of_index(s: Seq<(String, MatchedArg)>, i: int)
    requires
        unique_keys(s),
        0 <= i < s.len(),
    ensures
        map_of(s).contains_key(s[i].0@),
        map_of(s)[s[i].0@] == s[i].1.model(),
    decreases s.len(),
{
    if i == s.len() - 1 {
    } else {
        assert(unique_keys(s.drop_last()));
        lemma_map_of_index(s.drop_last(), i);
        assert(s.drop_last()[i] == s[i]);
        assert(s[i].0@ != s.last().0@);
    }
}

/// Appending an entry with a fresh identifier inserts its record.
pub proof fn lemma_map_of_push(s: Seq<(String, MatchedArg)>, p: (String, MatchedArg))
    ensures
        map_of(s.push(p)) == map_of(s).insert(p.0@, p.1.model()),
{
    assert(s.push(p).drop_last() =~= s);
    assert(s.push(p).last() == p);
}

/// Replacing the entry at `i` by one with the same identifier updates the
/// mapping at that identifier alone.
pub proof fn lemma_map_of_update(s: Seq<(String, MatchedArg)>, i: int, p: (String, MatchedArg))
    requires
        unique_keys(s),
        0 <= i < s.len(),
        p.0@ == s[i].0@,
    ensures
        map_of(s.update(i, p)) == map_of(s).insert(p.0@, p.1.model()),
        unique_keys(s.update(i, p)),
    decreases s.len(),
{
    let t = s.update(i, p);
    assert(forall|j: int| 0 <= j < s.len() ==> (#[trigger] t[j]).0@ == s[j].0@);
    if i == s.len() - 1 {
        assert(t.drop_last() =~= s.drop_last());
        assert(t.last() == p);
        assert(map_of(s.drop_last()).insert(p.0@, p.1.model()) =~= map_of(s.drop_last()).insert(
            s.last().0@,
            s.last().1.model(),
        ).insert(p.0@, p.1.model()));
    } else {
        assert(unique_keys(s.drop_last()));
        lemma_map_of_update(s.drop_last(), i, p);
        assert(t.drop_last() =~= s.drop_last().update(i, p));
        assert(t.last() == s.last());
        assert(p.0@ != s.last().0@);
        assert(map_of(s.drop_last()).insert(p.0@, p.1.model()).insert(
            s.last().0@,
            s.last().1.model(),
        ) =~= map_of(s.drop_last()).insert(s.last().0@, s.last().1.model()).insert(
            p.0@,
            p.1.model(),
        ));
    }
}

/// Removing the entry at `i` removes its identifier from the mapping.
pub proof fn lemma_map_of_remove(s: Seq<(String, MatchedArg)>, i: int)
    requires
        unique_keys(s),
        0 <= i < s.len(),
    ensures
        map_of(s.remove(i)) == map_of(s).remove(s[i].0@),
        unique_keys(s.remove(i)),
    decreases s.len(),
{
    let t = s.remove(i);
    assert(forall|j: int| 0 <= j < i ==> #[trigger] t[j] == s[j]);
    assert(forall|j: int| i <= j < t.len() ==> #[trigger] t[j] == s[j + 1]);
    assert(unique_keys(t));
    if i == s.len() - 1 {
        assert(t =~= s.drop_last());
        lemma_map_of_contains(s.drop_last(), s[i].0@);
        assert(!has_key(s.drop_last(), s[i].0@));
        assert(map_of(s.drop_last()).insert(s.last().0@, s.last().1.model()).remove(s[i].0@)
            =~= map_of(s.drop_last()));
    } else {
        assert(unique_keys(s.drop_last()));
        lemma_map_of_remove(s.drop_last(), i);
        assert(t.drop_last() =~= s.drop_last().remove(i));
        assert(t.last() == s.last());
        assert(s[i].0@ != s.last().0@);
        assert(map_of(s.drop_last()).remove(s[i].0@).insert(s.last().0@, s.last().1.model())
            =~= map_of(s.drop_last()).insert(s.last().0@, s.last().1.model()).remove(s[i].0@));
    }
}

/// Well-formedness of a match tree: identifiers are unique at every level.
pub open spec fn wf_matches(m: ArgMatches) -> bool
    decreases m,
{
    &&& unique_keys(m.args@)
    &&& match m.subcommand {
        Some(b) => wf_matches(b.matches),
        None => true,
    }
}

/// The match tree seen as the chain of its levels, root first.
pub open spec fn chain_model(m: ArgMatches) -> Seq<Level>
    decreases m,
{
    let lvl = Level {
        records: map_of(m.args@),
        usage: match m.usage {
            Some(u) => Some(u@),
            None => None,
        },
        sub_name: match m.subcommand {
            Some(b) => Some(b.name@),
            None => None,
        },
    };
    match m.subcommand {
        Some(b) => seq![lvl] + chain_model(b.matches),
        None => seq![lvl],
    }
}

/// A chain always holds at least its root level, and levels below the root
/// are the child tree's chain.
pub proof fn lemma_chain_model_len(m: ArgMatches)
    ensures
        chain_model(m).len() >= 1,
        chain_model(m).len() > 1 <==> m.subcommand is Some,
    decreases m,
{
    if m.subcommand is Some {
        lemma_chain_model_len(m.subcommand.unwrap().matches);
    }
}

/// Two trees that agree below the root have chains that agree below the
/// root; each root level carries its own records.
pub proof fn lemma_chain_same_below(a: ArgMatches, b: ArgMatches)
    requires
        a.usage == b.usage,
        a.subcommand == b.subcommand,
    ensures
        chain_model(a).len() == chain_model(b).len(),
        chain_model(a)[0].records == map_of(a.args@),
        chain_model(b)[0].records == map_of(b.args@),
        chain_model(a)[0].usage == chain_model(b)[0].usage,
        chain_model(a)[0].sub_name == chain_model(b)[0].sub_name,
        chain_model(a).skip(1) == chain_model(b).skip(1),
{
    match a.subcommand {
        Some(bx) => {
            assert(chain_model(a) == seq![chain_model(a)[0]] + chain_model(bx.matches));
            assert(chain_model(b) == seq![chain_model(b)[0]] + chain_model(bx.matches));
            assert(chain_model(a).skip(1) =~= chain_model(bx.matches));
            assert(chain_model(b).skip(1) =~= chain_model(bx.matches));
        },
        None => {
            assert(chain_model(a).skip(1) =~= Seq::<Level>::empty());
            assert(chain_model(b).skip(1) =~= Seq::<Level>::empty());
        },
    }
}

impl ArgMatches {
    /// An empty match tree: no records, no usage string, no subcommand.
    pub fn new() -> (r: Self)
        ensures
            r.args@ == Seq::<(String, MatchedArg)>::empty(),
            r.usage is None,
            r.subcommand is None,
            wf_matches(r),
            map_of(r.args@) == Map::<Seq<char>, Record>::empty(),
    {
        let r = ArgMatches { args: Vec::new(), usage: None, subcommand: None };
        proof {
            assert(r.args@ =~= Seq::<(String, MatchedArg)>::empty());
        }
        r
    }

    /// The name of this level's active subcommand, if one was attached.
    pub fn subcommand_name(&self) -> (r: Option<&str>)
        ensures
            match r {
                Some(n) => self.subcommand is Some && n@ == self.subcommand.unwrap().name@,
                None => self.subcommand is None,
            },
    {
        match &self.subcommand {
            Some(b) => Some(b.name.as_str()),
            None => None,
        }
    }
}

impl Default for ArgMatches {
    /// Same as [`ArgMatches::new`].
    fn default() -> (r: Self)
        ensures
            r.args@ == Seq::<(String, MatchedArg)>::empty(),
            r.usage is None,
            r.subcommand is None,
            wf_matches(r),
            map_of(r.args@) == Map::<Seq<char>, Record>::empty(),
    {
        ArgMatches::new()
    }
}

} // verus!
