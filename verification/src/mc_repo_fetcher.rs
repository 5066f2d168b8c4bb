use vstd::prelude::*;
use vstd::string::*;
use crate::config_util::{class_path_of, constraint_id, texts, ConfigUtil};
use crate::error::ConfigError;
use crate::executable::same_texts;
use crate::expression::{ExpressionNode, Tree};
use crate::parser::{parse, parsed};
use crate::registry::Constraint;
use crate::text::{replace_all, replaced, same_text};

verus! {

/// One bounds hint as the configuration writes it: the name of a class of
/// collections, and the expressions for where its elements start and end.
#[derive(Clone, Debug, PartialEq, Eq)]
pub struct HintEntry {
    pub name: String,
    pub from: Option<String>,
    pub to: Option<String>,
}

/// A hint with its texts as characters.
pub struct HintView {
    pub name: Seq<char>,
    pub from: Option<Seq<char>>,
    pub to: Option<Seq<char>>,
}

impl View for HintEntry {
    type V = HintView;

    open spec fn view(&self) -> HintView {
        HintView {
            name: self.name@,
            from: match self.from {
                Some(s) => Some(s@),
                None => None,
            },
            to: match self.to {
                Some(s) => Some(s@),
                None => None,
            },
        }
    }
}

/// A constraint with its texts as characters and its expressions as trees.
pub struct ConstraintView {
    pub cid: u32,
    pub class_path: Seq<Seq<char>>,
    pub from: Option<Tree>,
    pub to: Option<Tree>,
}

/// The view of a constraint.
pub open spec fn constraint_view(c: Constraint) -> ConstraintView {
    ConstraintView {
        cid: c.cid,
        class_path: texts(c.class_path@),
        from: match c.from {
            Some(e) => Some(e@),
            None => None,
        },
        to: match c.to {
            Some(e) => Some(e@),
            None => None,
        },
    }
}

/// The views of some constraints.
pub open spec fn constraint_views(v: Seq<Constraint>) -> Seq<ConstraintView> {
    v.map_values(|c: Constraint| constraint_view(c))
}

/// The views of some hints.
pub open spec fn hint_views(v: Seq<HintEntry>) -> Seq<HintView> {
    v.map_values(|h: HintEntry| h@)
}

/// The views of some variable definitions.
pub open spec fn var_views(v: Seq<(String, String)>) -> Seq<(Seq<char>, Seq<char>)> {
    v.map_values(|e: (String, String)| (e.0@, e.1@))
}

/// A text with the user's variables resolved: the variable defined last whose name
/// occurs in the text is replaced by its value wherever it occurs, and no other.
pub open spec fn resolved(text: Seq<char>, vars: Seq<(Seq<char>, Seq<char>)>) -> Seq<char>
    decreases vars.len(),
{
    if vars.len() == 0 {
        text
    } else {
        let r = replaced(text, vars.last().0, vars.last().1);
        if r != text {
            r
        } else {
            resolved(text, vars.drop_last())
        }
    }
}

/// The tree of one bound of a hint, where the hint has that bound.
pub open spec fn bound_tree(text: Option<Seq<char>>, vars: Seq<(Seq<char>, Seq<char>)>) -> Result<
    Option<Tree>,
    ConfigError,
> {
    match text {
        None => Ok(None),
        Some(t) => match parsed(resolved(t, vars)) {
            Some(tree) => Ok(Some(tree)),
            None => Err(ConfigError::MalformedHint),
        },
    }
}

/// The constraint that a hint stands for: the id of the class path of its name, and
/// the trees of its bounds, all with the user's variables resolved. Fails with
/// `MalformedHint` where a bound is no expression of the grammar.
pub open spec fn constraint_of(h: HintView, vars: Seq<(Seq<char>, Seq<char>)>) -> Result<
    ConstraintView,
    ConfigError,
> {
    let path = class_path_of(resolved(h.name, vars));
    match bound_tree(h.from, vars) {
        Err(e) => Err(e),
        Ok(from) => match bound_tree(h.to, vars) {
            Err(e) => Err(e),
            Ok(to) => Ok(
                ConstraintView { cid: constraint_id(path) as u32, class_path: path, from, to },
            ),
        },
    }
}

/// The first position at or after `from` of a constraint with the given id, or
/// `acc.len()`.
pub open spec fn first_same_cid(acc: Seq<ConstraintView>, cid: u32, from: int) -> int
    decreases acc.len() - from,
{
    if from < 0 || from >= acc.len() {
        acc.len() as int
    } else if acc[from].cid == cid {
        from
    } else {
        first_same_cid(acc, cid, from + 1)
    }
}

/// The constraints that a list of hints stands for, in order. A hint whose class
/// path an earlier hint has is left out. Fails with the fault of the first hint
/// that has one: `MalformedHint`, or `Collision` where its id is that of an earlier
/// hint with another class path.
pub open spec fn loaded(hints: Seq<HintView>, vars: Seq<(Seq<char>, Seq<char>)>) -> Result<
    Seq<ConstraintView>,
    ConfigError,
>
    decreases hints.len(),
{
    if hints.len() == 0 {
        Ok(Seq::<ConstraintView>::empty())
    } else {
        match loaded(hints.drop_last(), vars) {
            Err(e) => Err(e),
            Ok(acc) => match constraint_of(hints.last(), vars) {
                Err(e) => Err(e),
                Ok(c) => {
                    let k = first_same_cid(acc, c.cid, 0);
                    if !(0 <= k < acc.len()) {
                        Ok(acc.push(c))
                    } else if acc[k].class_path == c.class_path {
                        Ok(acc)
                    } else {
                        Err(ConfigError::Collision)
                    }
                },
            },
        }
    }
}

/// The lowercase form of a text, as the standard library maps it.
pub uninterp spec fn lowercase_of(s: Seq<char>) -> Seq<char>;

/// `str::to_lowercase` of the standard library: the lowercase equivalent of the text,
/// which depends on the text alone.
#[verifier::external_body]
fn lowercase(s: &str) -> (r: String)
    ensures
        r@ == lowercase_of(s@),
{
    s.to_lowercase()
}

/// The line that declares one base slot in the accessor contract.
pub open spec fn dummy_line(slot: Seq<char>) -> Seq<char> {
    "    Schema."@ + slot + " $"@ + lowercase_of(slot) + ";\n"@
}

/// The lines that declare the base slots, in order.
pub open spec fn dummy_lines(slots: Seq<Seq<char>>) -> Seq<char>
    decreases slots.len(),
{
    if slots.len() == 0 {
        Seq::<char>::empty()
    } else {
        dummy_lines(slots.drop_last()) + dummy_line(slots.last())
    }
}

/// The source of the accessor contract for a bundle and its base slots.
pub open spec fn dummy_contract_text(bundle: Seq<char>, slots: Seq<Seq<char>>) -> Seq<char> {
    "// SPDX-License-Identifier: MIT\n"@ + "pragma solidity ^0.8.24;\n\n"@
        + "import { Schema } from \"bundle/"@ + bundle + "/storages/Schema.sol\";\n\n"@
        + "contract Dummy {\n"@ + dummy_lines(slots) + "}\n"@
}

/// What a run needs to know of the repository of the target contract: where it is,
/// which bundle is read, and the hint configuration as plain values.
#[derive(Clone, Debug)]
pub struct MCRepoFetcher {
    pub url: String,
    pub identifier: String,
    pub bundle: String,
    /// The user's variables, in the order of their definition.
    pub vars: Vec<(String, String)>,
    pub hints: Vec<HintEntry>,
}

/// Reads one bound of a hint.
fn read_bound(text: &Option<String>, fetcher: &MCRepoFetcher) -> (r: Result<
    Option<ExpressionNode>,
    ConfigError,
>)
    ensures
        match r {
            Ok(Some(e)) => bound_tree(
                match *text {
                    Some(s) => Some(s@),
                    None => None,
                },
                var_views(fetcher.vars@),
            ) == Ok::<Option<Tree>, ConfigError>(Some(e@)),
            Ok(None) => *text is None,
            Err(e) => bound_tree(
                match *text {
                    Some(s) => Some(s@),
                    None => None,
                },
                var_views(fetcher.vars@),
            ) == Err::<Option<Tree>, ConfigError>(e),
        },
{
    match text {
        None => Ok(None),
        Some(t) => {
            let expanded = fetcher.resolve_user_defined_vars(t.as_str());
            match parse(expanded.as_str()) {
                Ok(e) => Ok(Some(e)),
                Err(e) => Err(e),
            }
        },
    }
}

impl MCRepoFetcher {
    /// The repository `identifier` on GitHub and the bundle to read, without
    /// variables or hints yet.
    pub fn new(identifier: String, bundle: String) -> (f: Self)
        ensures
            f.url@ == "https://github.com/"@ + identifier@ + ".git"@,
            f.identifier == identifier,
            f.bundle == bundle,
            f.vars@.len() == 0,
            f.hints@.len() == 0,
    {
        let mut url = "https://github.com/".to_owned();
        url.append(identifier.as_str());
        url.append(".git");
        Self { url, identifier, bundle, vars: Vec::new(), hints: Vec::new() }
    }

    /// The source of the accessor contract that declares one variable for each base
    /// slot, in order.
    pub fn gen_dummy_contract(&self, base_slots: &Vec<String>) -> (source: String)
        ensures
            source@ == dummy_contract_text(self.bundle@, texts(base_slots@)),
    {
        let mut source = "// SPDX-License-Identifier: MIT\n".to_owned();
        source.append("pragma solidity ^0.8.24;\n\n");
        source.append("import { Schema } from \"bundle/");
        source.append(self.bundle.as_str());
        source.append("/storages/Schema.sol\";\n\n");
        source.append("contract Dummy {\n");
        let ghost head = source@;
        let ghost slots = texts(base_slots@);
        let mut i: usize = 0;
        assert(source@ =~= head + dummy_lines(slots.take(0)));
        while i < base_slots.len()
            invariant
                i <= base_slots.len(),
                slots == texts(base_slots@),
                source@ == head + dummy_lines(slots.take(i as int)),
            decreases base_slots.len() - i,
        {
            let ghost before = source@;
            let slot = base_slots[i].as_str();
            source.append("    Schema.");
            source.append(slot);
            source.append(" $");
            source.append(lowercase(slot).as_str());
            source.append(";\n");
            proof {
                assert(slots.take(i + 1).drop_last() =~= slots.take(i as int));
                assert(slots.take(i + 1).last() == base_slots@[i as int]@);
                assert(source@ =~= before + dummy_line(base_slots@[i as int]@));
                assert(source@ =~= head + dummy_lines(slots.take(i + 1)));
            }
            i += 1;
        }
        assert(slots.take(i as int) =~= slots);
        source.append("}\n");
        assert(source@ =~= dummy_contract_text(self.bundle@, slots));
        source
    }

    /// Resolves the user's variables in a text: of the variables whose name occurs
    /// in it, the one defined last is replaced by its value wherever it occurs.
    pub fn resolve_user_defined_vars(&self, expr: &str) -> (out: String)
        ensures
            out@ == resolved(expr@, var_views(self.vars@)),
    {
        let ghost vars = var_views(self.vars@);
        let mut i: usize = self.vars.len();
        assert(vars.take(i as int) =~= vars);
        while i > 0
            invariant
                i <= self.vars.len(),
                vars == var_views(self.vars@),
                resolved(expr@, vars) == resolved(expr@, vars.take(i as int)),
            decreases i,
        {
            i -= 1;
            proof {
                assert(vars.take(i + 1).drop_last() =~= vars.take(i as int));
                assert(vars.take(i + 1).last() == (self.vars@[i as int].0@, self.vars@[i as int].1@));
            }
            let replaced_expr = replace_all(expr, self.vars[i].0.as_str(), self.vars[i].1.as_str());
            if !same_text(replaced_expr.as_str(), expr) {
                return replaced_expr;
            }
        }
        expr.to_owned()
    }

    /// The constraints that the hints stand for, in order.
    ///
    /// Fails with `MalformedHint` where a bound is no expression of the grammar, and
    /// with `Collision` where two hints with different class paths share an id.
    pub fn load_perf_config(&self) -> (r: Result<Vec<Constraint>, ConfigError>)
        ensures
            match r {
                Ok(c) => loaded(hint_views(self.hints@), var_views(self.vars@)) == Ok::<
                    Seq<ConstraintView>,
                    ConfigError,
                >(constraint_views(c@)),
                Err(e) => loaded(hint_views(self.hints@), var_views(self.vars@)) == Err::<
                    Seq<ConstraintView>,
                    ConfigError,
                >(e),
            },
    {
        let ghost hints = hint_views(self.hints@);
        let ghost vars = var_views(self.vars@);
        let mut constraints: Vec<Constraint> = Vec::new();
        let mut i: usize = 0;
        assert(constraint_views(constraints@) =~= Seq::<ConstraintView>::empty());
        while i < self.hints.len()
            invariant
                i <= self.hints.len(),
                hints == hint_views(self.hints@),
                vars == var_views(self.vars@),
                loaded(hints.take(i as int), vars) == Ok::<Seq<ConstraintView>, ConfigError>(
                    constraint_views(constraints@),
                ),
            decreases self.hints.len() - i,
        {
            let hint = &self.hints[i];
            let ghost acc = constraint_views(constraints@);
            proof {
                assert(hints.take(i + 1).drop_last() =~= hints.take(i as int));
                assert(hints.take(i + 1).last() == hint@);
            }
            let name = self.resolve_user_defined_vars(hint.name.as_str());
            let class_path = ConfigUtil::to_class_paths(name.as_str());
            let cid = ConfigUtil::calc_id(&class_path);
            let from = match read_bound(&hint.from, self) {
                Ok(b) => b,
                Err(e) => {
                    proof {
                        lemma_loaded_fails_on(hints, vars, i + 1);
                    }
                    return Err(e);
                },
            };
            let to = match read_bound(&hint.to, self) {
                Ok(b) => b,
                Err(e) => {
                    proof {
                        lemma_loaded_fails_on(hints, vars, i + 1);
                    }
                    return Err(e);
                },
            };
            let constraint = Constraint { cid, class_path, from, to };
            assert(constraint_of(hint@, vars) == Ok::<ConstraintView, ConfigError>(
                constraint_view(constraint),
            ));
            let mut k: usize = 0;
            while k < constraints.len()
                invariant
                    k <= constraints.len(),
                    acc == constraint_views(constraints@),
                    first_same_cid(acc, cid, 0) == first_same_cid(acc, cid, k as int),
                ensures
                    k == first_same_cid(acc, cid, 0),
                    k <= constraints.len(),
                decreases constraints.len() - k,
            {
                assert(acc[k as int].cid == constraints@[k as int].cid);
                if constraints[k].cid == cid {
                    break ;
                }
                k += 1;
            }
            if k >= constraints.len() {
                let ghost added = constraint_view(constraint);
                constraints.push(constraint);
                assert(constraint_views(constraints@) =~= acc.push(added));
            } else {
                assert(acc[k as int].class_path == texts(constraints@[k as int].class_path@));
                if !same_texts(&constraints[k].class_path, &constraint.class_path) {
                    proof {
                        lemma_loaded_fails_on(hints, vars, i + 1);
                    }
                    return Err(ConfigError::Collision);
                }
            }
            i += 1;
        }
        assert(hints.take(i as int) =~= hints);
        Ok(constraints)
    }
}

/// The constraints that hints stand for have each its own id.
pub proof fn lemma_loaded_ids_differ(hints: Seq<HintView>, vars: Seq<(Seq<char>, Seq<char>)>)
    requires
        loaded(hints, vars) is Ok,
    ensures
        forall|i: int, j: int|
            0 <= i < j < loaded(hints, vars)->Ok_0.len() ==> (#[trigger] loaded(
                hints,
                vars,
            )->Ok_0[i]).cid != (#[trigger] loaded(hints, vars)->Ok_0[j]).cid,
    decreases hints.len(),
{
    if hints.len() > 0 {
        lemma_loaded_ids_differ(hints.drop_last(), vars);
        let acc = loaded(hints.drop_last(), vars)->Ok_0;
        let c = constraint_of(hints.last(), vars)->Ok_0;
        let out = loaded(hints, vars)->Ok_0;
        lemma_first_same_cid(acc, c.cid, 0);
        assert forall|i: int, j: int| 0 <= i < j < out.len() implies (#[trigger] out[i]).cid != (
        #[trigger] out[j]).cid by {
            if j < acc.len() {
                assert(out[i] == acc[i] && out[j] == acc[j]);
            } else {
                assert(out == acc.push(c));
                assert(out[i] == acc[i] && out[j] == c);
                assert(acc[i].cid != c.cid);
            }
        }
    }
}

/// Where no constraint at or after `from` has the id, none of them has it.
proof fn lemma_first_same_cid(acc: Seq<ConstraintView>, cid: u32, from: int)
    requires
        0 <= from,
    ensures
        first_same_cid(acc, cid, from) >= 0,
        first_same_cid(acc, cid, from) >= acc.len() ==> forall|k: int|
            from <= k < acc.len() ==> (#[trigger] acc[k]).cid != cid,
    decreases acc.len() - from,
{
    if from < acc.len() && acc[from].cid != cid {
        lemma_first_same_cid(acc, cid, from + 1);
    }
}

/// Where loading a part of the hints fails, loading all of them fails in the same
/// way.
proof fn lemma_loaded_fails_on(hints: Seq<HintView>, vars: Seq<(Seq<char>, Seq<char>)>, k: int)
    requires
        0 <= k <= hints.len(),
        loaded(hints.take(k), vars) is Err,
    ensures
        loaded(hints, vars) == loaded(hints.take(k), vars),
    decreases hints.len() - k,
{
    if k == hints.len() {
        assert(hints.take(k) =~= hints);
    } else {
        assert(hints.take(k + 1).drop_last() =~= hints.take(k));
        lemma_loaded_fails_on(hints, vars, k + 1);
    }
}

} // verus!
