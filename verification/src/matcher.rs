//! The match accumulator: the mutation and query interface that a parsing
//! loop drives while it consumes tokens.

use vstd::prelude::*;
use vstd::string::StringExecFns;

use crate::arg::{spec_needs_more_vals, Arg};
use crate::matched::{MatchedArg, Record};
use crate::matches::{
    chain_model, has_key, lemma_chain_model_len, lemma_chain_same_below, lemma_map_of_contains,
    lemma_map_of_index, lemma_map_of_push, lemma_map_of_remove, lemma_map_of_update, map_of,
    unique_keys, wf_matches, ArgMatches, Level, SubCommand,
};
use crate::propagation::{child_filled, prop_occurs_ok, spec_propagate};

verus! {

/// The match accumulator: a root match tree plus the operations the parsing
/// loop uses to fill it.
pub struct ArgMatcher(pub ArgMatches);

/// Position of the entry for `id` in the association list, if there is one.
fn find_index(args: &Vec<(String, MatchedArg)>, id: &str) -> (r: Option<usize>)
    ensures
        match r {
            Some(i) => i < args@.len() && args@[i as int].0@ == id@,
            None => !has_key(args@, id@),
        },
{
    let key = String::from_str(id);
    let mut i: usize = 0;
    while i < args.len()
        invariant
            i <= args@.len(),
            key@ == id@,
            forall|j: int| 0 <= j < i ==> (#[trigger] args@[j]).0@ != id@,
        decreases args@.len() - i,
    {
        if args[i].0 == key {
            return Some(i);
        }
        i += 1;
    }
    None
}

/// An element-wise copy of a value sequence.
fn clone_string_vec(v: &Vec<String>) -> (r: Vec<String>)
    ensures
        r@ == v@,
{
    let mut r: Vec<String> = Vec::new();
    let mut i: usize = 0;
    while i < v.len()
        invariant
            i <= v@.len(),
            r@ == v@.take(i as int),
        decreases v@.len() - i,
    {
        r.push(v[i].clone());
        proof {
            assert(r@ =~= v@.take(i + 1));
        }
        i += 1;
    }
    proof {
        assert(v@.take(v@.len() as int) =~= v@);
    }
    r
}

/// The set of identifiers that a list of identifiers denotes.
pub open spec fn id_set(ids: Seq<&str>) -> Set<Seq<char>> {
    Set::new(|k: Seq<char>| exists|i: int| 0 <= i < ids.len() && (#[trigger] ids[i])@ == k)
}

proof fn lemma_id_set_take_step(ids: Seq<&str>, i: int)
    requires
        0 <= i < ids.len(),
    ensures
        id_set(ids.take(i + 1)) == id_set(ids.take(i)).insert(ids[i]@),
{
    let a = id_set(ids.take(i + 1));
    let b = id_set(ids.take(i)).insert(ids[i]@);
    assert forall|k: Seq<char>| a.contains(k) implies b.contains(k) by {
        let j = choose|j: int| 0 <= j < ids.take(i + 1).len() && (#[trigger] ids.take(i + 1)[j])@ == k;
        if j < i {
            assert(ids.take(i)[j]@ == k);
        } else {
            assert(ids[i]@ == k);
        }
    };
    assert forall|k: Seq<char>| b.contains(k) implies a.contains(k) by {
        if k == ids[i]@ {
            assert(ids.take(i + 1)[i]@ == k);
        } else {
            let j = choose|j: int| 0 <= j < ids.take(i).len() && (#[trigger] ids.take(i)[j])@ == k;
            assert(ids.take(i + 1)[j]@ == k);
        }
    };
    assert(a =~= b);
}

/// One occurrence registered for `id`: an existing record's count advances
/// by one, a missing record is freshly created, counting this first
/// observation as one occurrence.
pub open spec fn spec_inc_one(m: Map<Seq<char>, Record>, id: Seq<char>) -> Map<Seq<char>, Record> {
    if m.contains_key(id) {
        m.insert(id, Record { occurs: m[id].occurs + 1, vals: m[id].vals })
    } else {
        m.insert(id, Record { occurs: 1, vals: Seq::empty() })
    }
}

/// Occurrences registered for each identifier of `ids`, first to last.
pub open spec fn spec_inc_all(m: Map<Seq<char>, Record>, ids: Seq<&str>) -> Map<Seq<char>, Record>
    decreases ids.len(),
{
    if ids.len() == 0 {
        m
    } else {
        spec_inc_all(spec_inc_one(m, ids[0]@), ids.skip(1))
    }
}

/// The machine-limit side condition of registering occurrences for each
/// identifier of `ids` in order: no count leaves `u64`.
pub open spec fn spec_inc_all_ok(m: Map<Seq<char>, Record>, ids: Seq<&str>) -> bool
    decreases ids.len(),
{
    if ids.len() == 0 {
        true
    } else {
        &&& (m.contains_key(ids[0]@) ==> m[ids[0]@].occurs < u64::MAX)
        &&& spec_inc_all_ok(spec_inc_one(m, ids[0]@), ids.skip(1))
    }
}

/// A value captured for `id`: appended to an existing record's values, or
/// put into a fresh record that counts no occurrence yet.
pub open spec fn spec_add_val(
    m: Map<Seq<char>, Record>,
    id: Seq<char>,
    v: Seq<char>,
) -> Map<Seq<char>, Record> {
    if m.contains_key(id) {
        m.insert(id, Record { occurs: m[id].occurs, vals: m[id].vals.push(v) })
    } else {
        m.insert(id, Record { occurs: 0, vals: seq![v] })
    }
}

/// One propagation pass for `arg` over a whole match tree, as
/// [`spec_propagate`] describes it: each level that holds a record for
/// `arg` fills the level below, values a level supplied itself are kept.
fn propagate_matches(m: ArgMatches, arg: &str) -> (r: ArgMatches)
    requires
        wf_matches(m),
        prop_occurs_ok(chain_model(m), arg@),
    ensures
        wf_matches(r),
        chain_model(r) == spec_propagate(chain_model(m), arg@),
    decreases chain_model(m).len(),
{
    let ghost m0 = m;
    let ghost chain0 = chain_model(m);
    proof {
        lemma_chain_same_below(m0, m0);
        lemma_chain_model_len(m0);
    }
    let idx = find_index(&m.args, arg);
    if idx.is_none() {
        proof {
            lemma_map_of_contains(m0.args@, arg@);
            assert(!chain0[0].records.contains_key(arg@));
        }
        return m;
    }
    let i = idx.unwrap();
    proof {
        lemma_map_of_index(m0.args@, i as int);
        assert(chain0[0].records.contains_key(arg@));
    }
    if m.subcommand.is_none() {
        proof {
            assert(chain0.len() == 1);
        }
        return m;
    }
    let ArgMatches { args, usage, subcommand } = m;
    let sc = subcommand.unwrap();
    let SubCommand { name, matches } = *sc;
    let mut child = matches;
    let ghost child0 = child;
    let ghost cchain = chain_model(child0);
    let ghost r0 = chain0[0].records[arg@];
    proof {
        lemma_chain_same_below(child0, child0);
        assert(wf_matches(child0));
        assert(unique_keys(child0.args@));
        assert(chain0 == seq![chain0[0]] + cchain);
        assert(chain0[1] == cchain[0]);
        assert(r0 == m0.args@[i as int].1.model());
    }
    let pvals = clone_string_vec(&args[i].1.vals);
    let poccurs = args[i].1.occurs;
    proof {
        assert(pvals.deep_view() =~= r0.vals);
        assert(poccurs as int == r0.occurs);
    }
    let ghost filled = Level {
        records: child_filled(chain0[1].records, r0, arg@),
        usage: chain0[1].usage,
        sub_name: chain0[1].sub_name,
    };
    let ghost c0 = child.args@;
    let cidx = find_index(&child.args, arg);
    match cidx {
        None => {
            proof {
                lemma_map_of_contains(c0, arg@);
                assert(!chain0[1].records.contains_key(arg@));
                assert(r0.occurs < u64::MAX);
            }
            let key = String::from_str(arg);
            let rec = MatchedArg { occurs: poccurs + 1, vals: pvals };
            child.args.push((key, rec));
            proof {
                let p = child.args@.last();
                assert(child.args@ =~= c0.push(p));
                lemma_map_of_push(c0, p);
                assert(unique_keys(child.args@));
                assert(p.1.model() == (Record { occurs: r0.occurs + 1, vals: r0.vals }));
                assert(map_of(child.args@) == filled.records);
            }
        },
        Some(j) => {
            proof {
                lemma_map_of_index(c0, j as int);
                assert(chain0[1].records.contains_key(arg@));
            }
            if child.args[j].1.vals.len() == 0 {
                proof {
                    assert(chain0[1].records[arg@].vals.len() == 0);
                }
                let (k, ma) = child.args.remove(j);
                let ma2 = MatchedArg { occurs: ma.occurs, vals: pvals };
                child.args.insert(j, (k, ma2));
                proof {
                    let p = child.args@[j as int];
                    assert(child.args@ =~= c0.update(j as int, p));
                    lemma_map_of_update(c0, j as int, p);
                    assert(p.1.model() == (Record {
                        occurs: chain0[1].records[arg@].occurs,
                        vals: r0.vals,
                    }));
                    assert(map_of(child.args@) == filled.records);
                }
            } else {
                proof {
                    assert(chain0[1].records[arg@].vals.len() > 0);
                    assert(filled.records == map_of(child.args@));
                }
            }
        },
    }
    proof {
        lemma_chain_same_below(child0, child);
        assert(chain_model(child).skip(1) == cchain.skip(1));
        assert(cchain.skip(1) =~= chain0.skip(2));
        assert(chain_model(child) =~= seq![filled] + chain0.skip(2));
        assert(chain_model(child).len() < chain0.len());
        assert(wf_matches(child));
    }
    let new_child = propagate_matches(child, arg);
    let r = ArgMatches {
        args,
        usage,
        subcommand: Some(Box::new(SubCommand { name, matches: new_child })),
    };
    proof {
        assert(r.usage == m0.usage);
        assert(chain_model(r) == seq![chain_model(r)[0]] + chain_model(new_child));
        assert(chain_model(r)[0] == chain0[0]);
        assert(chain_model(r) =~= seq![chain0[0]] + spec_propagate(
            seq![filled] + chain0.skip(2),
            arg@,
        ));
        assert(chain_model(r) == spec_propagate(chain0, arg@));
        assert(wf_matches(r));
    }
    r
}

impl ArgMatcher {
    /// Mirrors the root level's resolved values for `arg` into every level
    /// of the active subcommand chain, as if given at each level, without
    /// overwriting values a level captured itself; a no-op where `arg` has
    /// no record.
    pub fn propagate(&mut self, arg: &str)
        requires
            old(self).wf(),
            prop_occurs_ok(old(self).chain(), arg@),
        ensures
            final(self).wf(),
            final(self).chain() == spec_propagate(old(self).chain(), arg@),
    {
        let mut tmp = ArgMatches::new();
        core::mem::swap(&mut tmp, &mut self.0);
        let done = propagate_matches(tmp, arg);
        self.0 = done;
    }

    /// The records of the accumulator's root level, as a mapping from
    /// identifier to record.
    pub open spec fn records(self) -> Map<Seq<char>, Record> {
        map_of(self.0.args@)
    }

    /// The whole match tree as the chain of its levels, root first.
    pub open spec fn chain(self) -> Seq<Level> {
        chain_model(self.0)
    }

    /// Identifiers are unique at every level of the tree.
    pub open spec fn wf(self) -> bool {
        wf_matches(self.0)
    }

    /// A fresh accumulator over an empty match tree.
    pub fn new() -> (r: Self)
        ensures
            r.wf(),
            r.records() == Map::<Seq<char>, Record>::empty(),
            r.0.usage is None,
            r.0.subcommand is None,
    {
        ArgMatcher(ArgMatches::new())
    }

    /// The record for `arg` at the root level, if the argument was ever
    /// referenced there.
    pub fn get(&self, arg: &str) -> (r: Option<&MatchedArg>)
        requires
            self.wf(),
        ensures
            match r {
                Some(ma) => self.records().contains_key(arg@) && ma.model() == self.records()[arg@],
                None => !self.records().contains_key(arg@),
            },
    {
        match find_index(&self.0.args, arg) {
            Some(i) => {
                proof {
                    lemma_map_of_index(self.0.args@, i as int);
                }
                Some(&self.0.args[i].1)
            },
            None => {
                proof {
                    lemma_map_of_contains(self.0.args@, arg@);
                }
                None
            },
        }
    }

    /// Whether a record for `arg` exists at the root level.
    pub fn contains(&self, arg: &str) -> (r: bool)
        requires
            self.wf(),
        ensures
            r == self.records().contains_key(arg@),
    {
        match self.get(arg) {
            Some(_) => true,
            None => false,
        }
    }

    /// Whether the root level holds no records at all.
    pub fn is_empty(&self) -> (r: bool)
        ensures
            r == (self.records() == Map::<Seq<char>, Record>::empty()),
    {
        let r = self.0.args.is_empty();
        proof {
            if self.0.args@.len() == 0 {
                assert(self.records() =~= Map::<Seq<char>, Record>::empty());
            } else {
                let k = self.0.args@.last().0@;
                lemma_map_of_contains(self.0.args@, k);
                assert(self.0.args@[self.0.args@.len() - 1].0@ == k);
                assert(self.records().contains_key(k));
            }
        }
        r
    }

    /// Stores a usage string for later diagnostic use, replacing any
    /// previous one.  Records and subcommand are untouched.
    pub fn usage(&mut self, usage: String)
        ensures
            final(self).0.usage == Some(usage),
            final(self).0.args == old(self).0.args,
            final(self).0.subcommand == old(self).0.subcommand,
    {
        self.0.usage = Some(usage);
    }

    /// Creates a fresh, empty record for `name`, replacing — never merging
    /// with — any existing one.  As everywhere in this crate, a fresh record
    /// counts one occurrence; see [`MatchedArg::new`].
    pub fn insert(&mut self, name: &str)
        requires
            old(self).wf(),
        ensures
            final(self).wf(),
            final(self).records() == old(self).records().insert(
                name@,
                (Record { occurs: 1, vals: Seq::empty() }),
            ),
            final(self).0.usage == old(self).0.usage,
            final(self).0.subcommand == old(self).0.subcommand,
    {
        let rec = MatchedArg::new();
        let key = String::from_str(name);
        let ghost s0 = self.0.args@;
        match find_index(&self.0.args, name) {
            Some(i) => {
                self.0.args.remove(i);
                self.0.args.insert(i, (key, rec));
                proof {
                    let p = self.0.args@[i as int];
                    assert(self.0.args@ =~= s0.update(i as int, p));
                    lemma_map_of_update(s0, i as int, p);
                }
            },
            None => {
                self.0.args.push((key, rec));
                proof {
                    let p = self.0.args@.last();
                    assert(self.0.args@ =~= s0.push(p));
                    lemma_map_of_push(s0, p);
                    assert(unique_keys(self.0.args@));
                }
            },
        }
    }

    /// Deletes the record for `arg`; a no-op if there is none.
    pub fn remove(&mut self, arg: &str)
        requires
            old(self).wf(),
        ensures
            final(self).wf(),
            final(self).records() == old(self).records().remove(arg@),
            final(self).0.usage == old(self).0.usage,
            final(self).0.subcommand == old(self).0.subcommand,
    {
        let ghost s0 = self.0.args@;
        match find_index(&self.0.args, arg) {
            Some(i) => {
                self.0.args.remove(i);
                proof {
                    lemma_map_of_remove(s0, i as int);
                }
            },
            None => {
                proof {
                    lemma_map_of_contains(s0, arg@);
                    assert(self.records().remove(arg@) =~= self.records());
                }
            },
        }
    }

    /// Deletes the records of exactly the given identifiers; identifiers
    /// without a record are skipped, all others are unaffected.
    pub fn remove_all(&mut self, args: &[&str])
        requires
            old(self).wf(),
        ensures
            final(self).wf(),
            final(self).records() == old(self).records().remove_keys(id_set(args@)),
            final(self).0.usage == old(self).0.usage,
            final(self).0.subcommand == old(self).0.subcommand,
    {
        let mut i: usize = 0;
        proof {
            assert(id_set(args@.take(0)) =~= Set::<Seq<char>>::empty());
            assert(self.records().remove_keys(id_set(args@.take(0))) =~= self.records());
        }
        while i < args.len()
            invariant
                i <= args@.len(),
                self.wf(),
                self.records() == old(self).records().remove_keys(id_set(args@.take(i as int))),
                self.0.usage == old(self).0.usage,
                self.0.subcommand == old(self).0.subcommand,
            decreases args@.len() - i,
        {
            let a: &str = args[i];
            self.remove(a);
            proof {
                lemma_id_set_take_step(args@, i as int);
                assert(old(self).records().remove_keys(id_set(args@.take(i as int))).remove(a@)
                    =~= old(self).records().remove_keys(id_set(args@.take(i + 1))));
            }
            i += 1;
        }
        proof {
            assert(args@.take(args@.len() as int) =~= args@);
        }
    }

    /// The identifiers recorded at the root level, one for each record, in
    /// the store's order; the order carries no meaning.
    pub fn arg_names(&self) -> (r: Vec<String>)
        ensures
            r@.len() == self.0.args@.len(),
            forall|i: int| 0 <= i < r@.len() ==> (#[trigger] r@[i])@ == self.0.args@[i].0@,
    {
        let mut r: Vec<String> = Vec::new();
        let mut i: usize = 0;
        while i < self.0.args.len()
            invariant
                i <= self.0.args@.len(),
                r@.len() == i,
                forall|j: int| 0 <= j < i ==> (#[trigger] r@[j])@ == self.0.args@[j].0@,
            decreases self.0.args@.len() - i,
        {
            r.push(self.0.args[i].0.clone());
            i += 1;
        }
        r
    }

    /// A restartable walk over the root level's (identifier, record) pairs:
    /// the current snapshot of the store.
    pub fn iter(&self) -> (r: &Vec<(String, MatchedArg)>)
        ensures
            r@ == self.0.args@,
    {
        &self.0.args
    }

    /// Sets this level's active subcommand, replacing a previous one.
    pub fn subcommand(&mut self, sc: SubCommand)
        ensures
            final(self).0.subcommand is Some,
            final(self).0.subcommand.unwrap().name == sc.name,
            final(self).0.subcommand.unwrap().matches == sc.matches,
            final(self).0.args == old(self).0.args,
            final(self).0.usage == old(self).0.usage,
    {
        self.0.subcommand = Some(Box::new(sc));
    }

    /// Registers one occurrence of `arg`: an existing record's count
    /// advances by one; otherwise a fresh record is created, counting this
    /// first observation as one occurrence.
    pub fn inc_occurrence_of(&mut self, arg: &str)
        requires
            old(self).wf(),
            old(self).records().contains_key(arg@) ==> old(self).records()[arg@].occurs
                < u64::MAX,
        ensures
            final(self).wf(),
            final(self).records() == spec_inc_one(old(self).records(), arg@),
            final(self).0.usage == old(self).0.usage,
            final(self).0.subcommand == old(self).0.subcommand,
    {
        let ghost s0 = self.0.args@;
        match find_index(&self.0.args, arg) {
            Some(i) => {
                proof {
                    lemma_map_of_index(s0, i as int);
                }
                let (k, ma) = self.0.args.remove(i);
                let ma2 = MatchedArg { occurs: ma.occurs + 1, vals: ma.vals };
                self.0.args.insert(i, (k, ma2));
                proof {
                    let p = self.0.args@[i as int];
                    assert(self.0.args@ =~= s0.update(i as int, p));
                    assert(p.1.model().vals =~= s0[i as int].1.model().vals);
                    lemma_map_of_update(s0, i as int, p);
                }
            },
            None => {
                proof {
                    lemma_map_of_contains(s0, arg@);
                }
                self.insert(arg);
            },
        }
    }

    /// Registers one occurrence of each identifier of `args`, first to
    /// last.
    pub fn inc_occurrences_of(&mut self, args: &[&str])
        requires
            old(self).wf(),
            spec_inc_all_ok(old(self).records(), args@),
        ensures
            final(self).wf(),
            final(self).records() == spec_inc_all(old(self).records(), args@),
            final(self).0.usage == old(self).0.usage,
            final(self).0.subcommand == old(self).0.subcommand,
    {
        let mut i: usize = 0;
        proof {
            assert(args@.skip(0) =~= args@);
        }
        while i < args.len()
            invariant
                i <= args@.len(),
                self.wf(),
                spec_inc_all_ok(self.records(), args@.skip(i as int)),
                spec_inc_all(self.records(), args@.skip(i as int)) == spec_inc_all(
                    old(self).records(),
                    args@,
                ),
                self.0.usage == old(self).0.usage,
                self.0.subcommand == old(self).0.subcommand,
            decreases args@.len() - i,
        {
            let a: &str = args[i];
            proof {
                assert(args@.skip(i as int)[0] == a);
            }
            self.inc_occurrence_of(a);
            proof {
                assert(args@.skip(i as int).skip(1) =~= args@.skip(i + 1));
            }
            i += 1;
        }
        proof {
            assert(args@.skip(args@.len() as int) =~= Seq::<&str>::empty());
        }
    }

    /// Captures a raw value for `arg`: the value is appended to the
    /// record's values, preserving arrival order; a missing record is
    /// created first, counting no occurrence yet.
    pub fn add_val_to(&mut self, arg: &str, val: String)
        requires
            old(self).wf(),
        ensures
            final(self).wf(),
            final(self).records() == spec_add_val(old(self).records(), arg@, val@),
            final(self).0.usage == old(self).0.usage,
            final(self).0.subcommand == old(self).0.subcommand,
    {
        let ghost s0 = self.0.args@;
        match find_index(&self.0.args, arg) {
            Some(i) => {
                proof {
                    lemma_map_of_index(s0, i as int);
                }
                let (k, mut ma) = self.0.args.remove(i);
                ma.vals.push(val);
                self.0.args.insert(i, (k, ma));
                proof {
                    let p = self.0.args@[i as int];
                    assert(self.0.args@ =~= s0.update(i as int, p));
                    assert(p.1.model().vals =~= s0[i as int].1.model().vals.push(val@));
                    lemma_map_of_update(s0, i as int, p);
                }
            },
            None => {
                proof {
                    lemma_map_of_contains(s0, arg@);
                }
                let key = String::from_str(arg);
                let mut vals: Vec<String> = Vec::new();
                vals.push(val);
                let rec = MatchedArg { occurs: 0, vals };
                self.0.args.push((key, rec));
                proof {
                    let p = self.0.args@.last();
                    assert(self.0.args@ =~= s0.push(p));
                    assert(p.1.model().vals =~= seq![val@]);
                    lemma_map_of_push(s0, p);
                    assert(unique_keys(self.0.args@));
                }
            },
        }
    }

    /// Whether the parser must keep consuming values for the argument `o`
    /// describes, judged from `o`'s declared arity policy and the current
    /// record at the root level.  A declared exact count of zero together
    /// with `multiple` is excluded: a repeating group cannot be empty.
    pub fn needs_more_vals(&self, o: &Arg) -> (r: bool)
        requires
            self.wf(),
            o.multiple && o.number_of_values is Some ==> o.number_of_values.unwrap() > 0,
        ensures
            r == spec_needs_more_vals(
                *o,
                if self.records().contains_key(o.name@) {
                    Some(self.records()[o.name@])
                } else {
                    None
                },
            ),
    {
        match self.get(o.name.as_str()) {
            Some(ma) => {
                match o.number_of_values {
                    Some(num) => {
                        if o.multiple {
                            ma.vals.len() % num != 0
                        } else {
                            num != ma.vals.len()
                        }
                    },
                    None => {
                        match o.max_values {
                            Some(num) => !(ma.vals.len() > num),
                            None => {
                                if o.min_values.is_some() {
                                    true
                                } else {
                                    o.multiple
                                }
                            },
                        }
                    },
                }
            },
            None => true,
        }
    }

    /// The name of the active subcommand at the root level only.
    pub fn subcommand_name(&self) -> (r: Option<&str>)
        ensures
            match r {
                Some(n) => self.0.subcommand is Some && n@ == self.0.subcommand.unwrap().name@,
                None => self.0.subcommand is None,
            },
    {
        self.0.subcommand_name()
    }
}

impl Default for ArgMatcher {
    /// Same as [`ArgMatcher::new`].
    fn default() -> (r: Self)
        ensures
            r.wf(),
            r.records() == Map::<Seq<char>, Record>::empty(),
            r.0.usage is None,
            r.0.subcommand is None,
    {
        ArgMatcher::new()
    }
}

impl From<ArgMatcher> for ArgMatches {
    /// Hands the finished match tree to the result consumer.
    fn from(m: ArgMatcher) -> (r: ArgMatches) {
        m.0
    }
}

impl vstd::std_specs::convert::FromSpecImpl<ArgMatcher> for ArgMatches {
    open spec fn obeys_from_spec() -> bool {
        true
    }

    open spec fn from_spec(m: ArgMatcher) -> ArgMatches {
        m.0
    }
}

} // verus!
