//! A makefile as recipes: the variables it sets, the commands of its targets,
//! and what the targets depend on.

use vstd::prelude::*;
use vstd::string::*;

use crate::error::MakeError;
use crate::reference::{resolved, solve_reference, value_of, VarDict};
use crate::rule::{
    assign_parts, parse_rule_node, parse_var_assign_node, rule_parts, text_view, RuleView,
};
use crate::syntax::{
    make_nodes, node_views, nodes_in, parse_tree, NodeView, SyntaxNode, TsWalker,
};
use crate::text::{
    is_word, law_trimmed_twice, law_words_are_words, same_text, split_whitespace, trim, trimmed,
    views, words,
};

verus! {

// ---------------------------------------------------------------------------
// Lists of texts under a key
// ---------------------------------------------------------------------------

/// A key and the texts that belong to it.
#[derive(Debug, PartialEq, Eq)]
pub struct Entry {
    pub key: String,
    pub items: Vec<String>,
}

/// What an entry stands for.
pub struct EntryView {
    pub key: Seq<char>,
    pub items: Seq<Seq<char>>,
}

impl View for Entry {
    type V = EntryView;

    open spec fn view(&self) -> EntryView {
        EntryView { key: self.key@, items: views(self.items@) }
    }
}

/// The views of the entries of `v`.
pub open spec fn entry_views(v: Seq<Entry>) -> Seq<EntryView> {
    Seq::new(v.len(), |i: int| v[i]@)
}

/// The index of the first entry from `i` on with this key, or the end.
pub open spec fn entry_from(entries: Seq<EntryView>, key: Seq<char>, i: int) -> int
    decreases entries.len() - i,
{
    if i < 0 || i >= entries.len() || entries[i].key == key {
        i
    } else {
        entry_from(entries, key, i + 1)
    }
}

/// What is listed under a key, if it has an entry.
pub open spec fn items_of(entries: Seq<EntryView>, key: Seq<char>) -> Option<Seq<Seq<char>>> {
    let i = entry_from(entries, key, 0);
    if i < entries.len() {
        Some(entries[i].items)
    } else {
        None
    }
}

/// The entries after `items` went under `key`: an entry with this key gets the
/// items in place of its own, and without one a new entry comes last.
pub open spec fn with_items(
    entries: Seq<EntryView>,
    key: Seq<char>,
    items: Seq<Seq<char>>,
) -> Seq<EntryView> {
    let i = entry_from(entries, key, 0);
    if i < entries.len() {
        entries.update(i, EntryView { key, items })
    } else {
        entries.push(EntryView { key, items })
    }
}

/// What is listed under a key; nothing where it has no entry.
pub open spec fn listed(entries: Seq<EntryView>, key: Seq<char>) -> Seq<Seq<char>> {
    match items_of(entries, key) {
        Some(items) => items,
        None => Seq::empty(),
    }
}

/// The texts of `set`, and after them those of `more` that are not among them,
/// each once.
pub open spec fn united(set: Seq<Seq<char>>, more: Seq<Seq<char>>) -> Seq<Seq<char>>
    decreases more.len(),
{
    if more.len() == 0 {
        set
    } else {
        let sofar = united(set, more.drop_last());
        if sofar.contains(more.last()) {
            sofar
        } else {
            sofar.push(more.last())
        }
    }
}

proof fn lemma_entry_from(entries: Seq<EntryView>, key: Seq<char>, i: int)
    requires
        0 <= i <= entries.len(),
    ensures
        i <= entry_from(entries, key, i) <= entries.len(),
        entry_from(entries, key, i) < entries.len() ==> entries[entry_from(
            entries,
            key,
            i,
        )].key == key,
        forall|k: int|
            i <= k < entry_from(entries, key, i) ==> (#[trigger] entries[k]).key != key,
    decreases entries.len() - i,
{
    if i < entries.len() && entries[i].key != key {
        lemma_entry_from(entries, key, i + 1);
    }
}

/// Finds the entry with this key.
fn find_entry(entries: &Vec<Entry>, key: &str) -> (r: usize)
    ensures
        r == entry_from(entry_views(entries@), key@, 0),
        r <= entries@.len(),
{
    let mut i: usize = 0;
    while i < entries.len() && !same_text(entries[i].key.as_str(), key)
        invariant
            i <= entries@.len(),
            entry_from(entry_views(entries@), key@, 0) == entry_from(
                entry_views(entries@),
                key@,
                i as int,
            ),
        decreases entries@.len() - i,
    {
        assert(entry_views(entries@)[i as int] == entries@[i as int]@);
        i += 1;
    }
    assert(i < entries@.len() ==> entry_views(entries@)[i as int] == entries@[i as int]@);
    i
}

/// What is listed under a key, if it has an entry.
pub fn get_items<'a>(entries: &'a Vec<Entry>, key: &str) -> (r: Option<&'a Vec<String>>)
    ensures
        match r {
            Some(items) => items_of(entry_views(entries@), key@) == Some(views(items@)),
            None => items_of(entry_views(entries@), key@) is None,
        },
{
    let i = find_entry(entries, key);
    if i < entries.len() {
        assert(entry_views(entries@)[i as int] == entries@[i as int]@);
        Some(&entries[i].items)
    } else {
        None
    }
}

/// Takes the list under a key out of the entries, which keep an empty one in its
/// place, with the index of the entry. Without an entry a new one comes last.
fn take_items(entries: &mut Vec<Entry>, key: &str) -> (r: (usize, Vec<String>))
    ensures
        r.0 < final(entries)@.len(),
        entry_views(final(entries)@) == with_items(entry_views(old(entries)@), key@, Seq::empty()),
        r.0 == entry_from(entry_views(old(entries)@), key@, 0),
        views(r.1@) == listed(entry_views(old(entries)@), key@),
{
    let i = find_entry(entries, key);
    let ghost before = entry_views(entries@);
    if i < entries.len() {
        assert(before[i as int] == entries@[i as int]@);
        let entry = entries.remove(i);
        let ghost name = entry.key@;
        entries.insert(i, Entry { key: entry.key, items: Vec::new() });
        proof {
            lemma_entry_from(before, key@, 0);
            assert(views(Seq::<String>::empty()) == Seq::<Seq<char>>::empty());
            assert(entry_views(entries@) == before.update(
                i as int,
                EntryView { key: key@, items: Seq::empty() },
            ));
        }
        (i, entry.items)
    } else {
        entries.push(Entry { key: key.to_string(), items: Vec::new() });
        proof {
            assert(views(Seq::<String>::empty()) == Seq::<Seq<char>>::empty());
            assert(entry_views(entries@) == before.push(
                EntryView { key: key@, items: Seq::empty() },
            ));
        }
        (i, Vec::new())
    }
}

/// Puts a list in place of the one of entry `i`.
fn put_items(entries: &mut Vec<Entry>, i: usize, items: Vec<String>)
    requires
        i < old(entries)@.len(),
    ensures
        entry_views(final(entries)@) == entry_views(old(entries)@).update(
            i as int,
            (EntryView { key: entry_views(old(entries)@)[i as int].key, items: views(items@) }),
        ),
{
    let ghost before = entry_views(entries@);
    let entry = entries.remove(i);
    assert(before[i as int] == entry@);
    entries.insert(i, Entry { key: entry.key, items });
    assert(entry_views(entries@) =~= before.update(
        i as int,
        EntryView { key: before[i as int].key, items: views(items@) },
    ));
}

/// Adds texts to the end of the list under a key.
fn append_items(entries: &mut Vec<Entry>, key: &str, more: Vec<String>)
    ensures
        entry_views(final(entries)@) == with_items(
            entry_views(old(entries)@),
            key@,
            listed(entry_views(old(entries)@), key@) + views(more@),
        ),
{
    let ghost before = entry_views(entries@);
    let (i, mut items) = take_items(entries, key);
    let ghost own = items@;
    let mut more = more;
    let ghost extra = more@;
    items.append(&mut more);
    assert(views(items@) == views(own) + views(extra));
    put_items(entries, i, items);
    assert(entry_views(entries@) =~= with_items(
        before,
        key@,
        listed(before, key@) + views(extra),
    ));
}

/// Whether `v` holds the text.
fn holds(v: &Vec<String>, text: &str) -> (r: bool)
    ensures
        r == views(v@).contains(text@),
{
    let mut i: usize = 0;
    while i < v.len()
        invariant
            i <= v@.len(),
            forall|k: int| 0 <= k < i ==> (#[trigger] views(v@)[k]) != text@,
        decreases v@.len() - i,
    {
        if same_text(v[i].as_str(), text) {
            assert(views(v@)[i as int] == text@);
            return true;
        }
        i += 1;
    }
    false
}

/// Adds those of the texts that the list under a key does not hold yet.
fn unite_items(entries: &mut Vec<Entry>, key: &str, more: &Vec<String>)
    ensures
        entry_views(final(entries)@) == with_items(
            entry_views(old(entries)@),
            key@,
            united(listed(entry_views(old(entries)@), key@), views(more@)),
        ),
{
    let ghost before = entry_views(entries@);
    let (i, mut items) = take_items(entries, key);
    let ghost own = views(items@);
    let mut k: usize = 0;
    assert(views(more@).take(0) == Seq::<Seq<char>>::empty());
    while k < more.len()
        invariant
            k <= more@.len(),
            views(items@) == united(own, views(more@).take(k as int)),
        decreases more@.len() - k,
    {
        let ghost sofar = views(items@);
        assert(views(more@).take(k + 1).drop_last() == views(more@).take(k as int));
        assert(views(more@).take(k + 1).last() == more@[k as int]@);
        if !holds(&items, more[k].as_str()) {
            items.push(more[k].clone());
            assert(views(items@) == sofar.push(more@[k as int]@));
        }
        k += 1;
    }
    assert(views(more@).take(k as int) == views(more@));
    put_items(entries, i, items);
    assert(entry_views(entries@) =~= with_items(
        before,
        key@,
        united(listed(before, key@), views(more@)),
    ));
}

// ---------------------------------------------------------------------------
// Recipes
// ---------------------------------------------------------------------------

/// What a makefile says. The entries of `recipes` hold commands under the text
/// of all targets of a rule; those of `depex_dict` hold under each single target
/// what it depends on.
pub struct MakeRecipes {
    pub var_dict: VarDict,
    pub recipes: Vec<Entry>,
    pub depex_dict: Vec<Entry>,
}

/// What recipes stand for.
pub struct RecipesView {
    pub vars: Map<Seq<char>, Seq<char>>,
    pub recipes: Seq<EntryView>,
    pub depex: Seq<EntryView>,
}

impl View for MakeRecipes {
    type V = RecipesView;

    open spec fn view(&self) -> RecipesView {
        RecipesView {
            vars: self.var_dict@,
            recipes: entry_views(self.recipes@),
            depex: entry_views(self.depex_dict@),
        }
    }
}

/// Each text with its references resolved.
pub open spec fn all_resolved(
    texts: Seq<Seq<char>>,
    vars: Map<Seq<char>, Seq<char>>,
) -> Seq<Seq<char>> {
    Seq::new(texts.len(), |i: int| resolved(texts[i], vars))
}

/// What the first `k` of the targets depend on after `files` were added to each.
pub open spec fn with_depex(
    depex: Seq<EntryView>,
    targets: Seq<Seq<char>>,
    files: Seq<Seq<char>>,
    k: int,
) -> Seq<EntryView>
    decreases k,
{
    if k <= 0 {
        depex
    } else {
        let sofar = with_depex(depex, targets, files, k - 1);
        with_items(sofar, targets[k - 1], united(listed(sofar, targets[k - 1]), files))
    }
}

/// The recipes after a rule: the commands go under its targets, and what it
/// depends on under each of them. References are resolved with the variables as
/// they are at the rule.
pub open spec fn with_rule(st: RecipesView, rule: RuleView) -> RecipesView {
    let target = trimmed(resolved(rule.target, st.vars));
    RecipesView {
        vars: st.vars,
        recipes: with_items(
            st.recipes,
            target,
            listed(st.recipes, target) + all_resolved(rule.commands, st.vars),
        ),
        depex: match rule.depex {
            Some(files) => with_depex(
                st.depex,
                words(target),
                words(resolved(files, st.vars)),
                words(target).len() as int,
            ),
            None => st.depex,
        },
    }
}

/// The recipes after an assignment: a value, with its references resolved, sets
/// the variable, and no value unsets it.
pub open spec fn with_assignment(
    st: RecipesView,
    name: Seq<char>,
    value: Option<Seq<char>>,
) -> RecipesView {
    RecipesView {
        vars: match value {
            Some(value) => st.vars.insert(name, resolved(value, st.vars)),
            None => st.vars.remove(name),
        },
        recipes: st.recipes,
        depex: st.depex,
    }
}

/// The recipes after node `i`: rules and assignments add to them, a node of type
/// `ERROR` ends the reading, and every other node changes nothing.
pub open spec fn visit(nodes: Seq<NodeView>, s: Seq<char>, st: RecipesView, i: int) -> Result<
    RecipesView,
    MakeError,
> {
    let node = nodes[i];
    if node.kind == "ERROR"@ {
        Err(MakeError::ErrorNode { row: node.row as usize, column: node.column as usize })
    } else if node.kind == "rule"@ {
        match rule_parts(nodes, i, s) {
            Ok(rule) => Ok(with_rule(st, rule)),
            Err(e) => Err(e),
        }
    } else if node.kind == "variable_assignment"@ {
        match assign_parts(nodes, i, s) {
            Ok(parts) => Ok(with_assignment(st, parts.0, parts.1)),
            Err(e) => Err(e),
        }
    } else {
        Ok(st)
    }
}

/// The recipes after the first `n` nodes, or the first error among them.
pub open spec fn visited(nodes: Seq<NodeView>, s: Seq<char>, st: RecipesView, n: int) -> Result<
    RecipesView,
    MakeError,
>
    decreases n,
{
    if n <= 0 {
        Ok(st)
    } else {
        match visited(nodes, s, st, n - 1) {
            Ok(sofar) => visit(nodes, s, sofar, n - 1),
            Err(e) => Err(e),
        }
    }
}

/// The recipes before the first node: `WORKSPACE` is set.
pub open spec fn initial(workspace: Seq<char>) -> RecipesView {
    RecipesView {
        vars: Map::<Seq<char>, Seq<char>>::empty().insert("WORKSPACE"@, workspace),
        recipes: Seq::empty(),
        depex: Seq::empty(),
    }
}

/// What the nodes of a makefile say.
pub open spec fn recipes_of(nodes: Seq<NodeView>, s: Seq<char>, workspace: Seq<char>) -> Result<
    RecipesView,
    MakeError,
> {
    visited(nodes, s, initial(workspace), nodes.len() as int)
}

/// The current directory as the environment tells it.
#[derive(Debug, PartialEq, Eq)]
pub enum WorkingDir {
    Path(String),
    Missing,
    NotUtf8,
}

/// What the nodes of a makefile say in a working directory.
pub open spec fn recipes_in(nodes: Seq<NodeView>, s: Seq<char>, dir: WorkingDir) -> Result<
    RecipesView,
    MakeError,
> {
    match dir {
        WorkingDir::Path(path) => recipes_of(nodes, s, path@),
        WorkingDir::Missing => Err(MakeError::NoCurrentDir),
        WorkingDir::NotUtf8 => Err(MakeError::CurrentDirNotUtf8),
    }
}

proof fn lemma_visited_error(nodes: Seq<NodeView>, s: Seq<char>, st: RecipesView, k: int, n: int)
    requires
        0 <= k <= n,
        visited(nodes, s, st, k) is Err,
    ensures
        visited(nodes, s, st, n) == visited(nodes, s, st, k),
    decreases n - k,
{
    if k < n {
        lemma_visited_error(nodes, s, st, k, n - 1);
    }
}

impl MakeRecipes {
    /// Adds what a rule says.
    fn add_rule(&mut self, target: &str, depex: Option<String>, commands: Vec<String>) -> (r:
        Result<(), MakeError>)
        ensures
            r is Ok,
            final(self)@ == with_rule(
                old(self)@,
                (RuleView {
                    target: target@,
                    depex: text_view(depex),
                    commands: views(commands@),
                }),
            ),
    {
        let ghost before = self@;
        let ghost rule = RuleView {
            target: target@,
            depex: text_view(depex),
            commands: views(commands@),
        };
        let resolved_target = solve_reference(target, &self.var_dict)?;
        let target = trim(resolved_target.as_str());
        let mut resolved_commands: Vec<String> = Vec::new();
        let mut k: usize = 0;
        while k < commands.len()
            invariant
                k <= commands@.len(),
                self@ == before,
                views(resolved_commands@) == all_resolved(views(commands@), before.vars).take(
                    k as int,
                ),
            decreases commands@.len() - k,
        {
            let ghost sofar = views(resolved_commands@);
            resolved_commands.push(solve_reference(commands[k].as_str(), &self.var_dict)?);
            proof {
                assert(views(commands@)[k as int] == commands@[k as int]@);
                assert(views(resolved_commands@) == sofar.push(
                    resolved(commands@[k as int]@, before.vars),
                ));
            }
            k += 1;
        }
        assert(all_resolved(views(commands@), before.vars).take(k as int) == all_resolved(
            views(commands@),
            before.vars,
        ));
        append_items(&mut self.recipes, target.as_str(), resolved_commands);
        if let Some(files) = depex {
            let resolved_files = solve_reference(files.as_str(), &self.var_dict)?;
            let files = split_whitespace(resolved_files.as_str());
            let targets = split_whitespace(target.as_str());
            let ghost recipes = self@.recipes;
            let mut t: usize = 0;
            while t < targets.len()
                invariant
                    t <= targets@.len(),
                    self@.vars == before.vars,
                    self@.recipes == recipes,
                    self@.depex == with_depex(
                        before.depex,
                        views(targets@),
                        views(files@),
                        t as int,
                    ),
                decreases targets@.len() - t,
            {
                assert(views(targets@)[t as int] == targets@[t as int]@);
                unite_items(&mut self.depex_dict, targets[t].as_str(), &files);
                t += 1;
            }
            assert(views(targets@).len() == targets@.len());
        }
        assert(self@ == with_rule(before, rule));
        Ok(())
    }

    /// Adds what an assignment says.
    fn add_assignment(&mut self, name: &str, value: Option<String>) -> (r: Result<
        (),
        MakeError,
    >)
        ensures
            r is Ok,
            final(self)@ == with_assignment(old(self)@, name@, text_view(value)),
    {
        match value {
            Some(value) => {
                let resolved_value = solve_reference(value.as_str(), &self.var_dict)?;
                self.var_dict.insert(name.to_string(), resolved_value);
            },
            None => {
                self.var_dict.remove(name);
            },
        }
        Ok(())
    }

    /// Parses the text of a makefile and reads the recipes off its nodes.
    pub fn parse_makefile(src: &str, dir: &WorkingDir) -> (r: Result<MakeRecipes, MakeError>)
        ensures
            match recipes_in(make_nodes(src@), src@, *dir) {
                Ok(v) => r matches Ok(m) && m@ == v,
                Err(e) => r matches Err(f) && f == e,
            },
            r matches Ok(m) ==> well_formed(m@),
    {
        let tree = match parse_tree(src) {
            Ok(Some(tree)) => tree,
            Ok(None) => {
                return Err(MakeError::NotParsed);
            },
            Err(_) => {
                return Err(MakeError::Language);
            },
        };
        let workspace = match dir {
            WorkingDir::Path(path) => path,
            WorkingDir::Missing => {
                return Err(MakeError::NoCurrentDir);
            },
            WorkingDir::NotUtf8 => {
                return Err(MakeError::CurrentDirNotUtf8);
            },
        };
        let nodes = TsWalker::from(tree.walk()).collect_nodes();
        assert(make_nodes(src@).skip(0) == make_nodes(src@));
        MakeRecipes::from_nodes(&nodes, src, workspace.as_str())
    }

    /// Reads the recipes off the nodes of a makefile.
    pub fn from_nodes(nodes: &Vec<SyntaxNode>, src: &str, workspace: &str) -> (r: Result<
        MakeRecipes,
        MakeError,
    >)
        requires
            nodes_in(node_views(nodes@), src@),
        ensures
            match recipes_of(node_views(nodes@), src@, workspace@) {
                Ok(v) => r matches Ok(m) && m@ == v,
                Err(e) => r matches Err(f) && f == e,
            },
            r matches Ok(m) ==> well_formed(m@),
    {
        let ghost all = node_views(nodes@);
        let ghost s = src@;
        let ghost st = initial(workspace@);
        let mut var_dict = VarDict::new();
        var_dict.insert("WORKSPACE".to_string(), workspace.to_string());
        let mut make = MakeRecipes { var_dict, recipes: Vec::new(), depex_dict: Vec::new() };
        assert(make@.recipes =~= st.recipes);
        assert(make@.depex =~= st.depex);
        let mut i: usize = 0;
        while i < nodes.len()
            invariant
                i <= nodes@.len(),
                all == node_views(nodes@),
                s == src@,
                nodes_in(all, s),
                st == initial(workspace@),
                visited(all, s, st, i as int) == Ok::<RecipesView, MakeError>(make@),
            decreases nodes@.len() - i,
        {
            let node = &nodes[i];
            let ghost before = make@;
            assert(all[i as int] == node@);
            proof {
                if visited(all, s, st, i + 1) is Err {
                    lemma_visited_error(all, s, st, i + 1, nodes@.len() as int);
                }
            }
            if same_text(node.kind.as_str(), "ERROR") {
                return Err(MakeError::ErrorNode { row: node.row, column: node.column });
            }
            if same_text(node.kind.as_str(), "rule") {
                match parse_rule_node(nodes, i, src) {
                    Ok((target, depex, commands)) => {
                        make.add_rule(target, depex, commands)?;
                    },
                    Err(e) => {
                        return Err(e);
                    },
                }
            } else if same_text(node.kind.as_str(), "variable_assignment") {
                match parse_var_assign_node(nodes, i, src) {
                    Ok((name, value)) => {
                        make.add_assignment(name, value)?;
                    },
                    Err(e) => {
                        return Err(e);
                    },
                }
            }
            assert(visit(all, s, before, i as int) == Ok::<RecipesView, MakeError>(make@));
            i += 1;
        }
        proof {
            law_recipes_well_formed(all, s, workspace@);
        }
        Ok(make)
    }
}

// ---------------------------------------------------------------------------
// Laws
// ---------------------------------------------------------------------------

/// Whether no two entries have one key.
pub open spec fn entries_differ(entries: Seq<EntryView>) -> bool {
    forall|i: int, j: int|
        0 <= i < j < entries.len() ==> (#[trigger] entries[i]).key != (#[trigger] entries[j]).key
}

/// Whether a text is one of the targets of a recipe.
pub open spec fn is_target(recipes: Seq<EntryView>, target: Seq<char>) -> bool {
    exists|r: int|
        0 <= r < recipes.len() && words((#[trigger] recipes[r]).key).contains(target)
}

/// Whether every text of the list is a word.
pub open spec fn all_words(items: Seq<Seq<char>>) -> bool {
    forall|i: int| 0 <= i < items.len() ==> is_word(#[trigger] items[i])
}

/// Whether the dependencies are what they should be: one entry for each key, which is a
/// word and a target of a recipe, and under it words alone, each once.
pub open spec fn depex_well_formed(depex: Seq<EntryView>, recipes: Seq<EntryView>) -> bool {
    &&& entries_differ(depex)
    &&& forall|i: int|
        0 <= i < depex.len() ==> {
            &&& is_word((#[trigger] depex[i]).key)
            &&& is_target(recipes, depex[i].key)
            &&& depex[i].items.no_duplicates()
            &&& all_words(depex[i].items)
        }
}

/// Whether recipes are what they should be: one entry for each key, which no white space
/// surrounds, and dependencies that are what they should be.
pub open spec fn well_formed(v: RecipesView) -> bool {
    &&& entries_differ(v.recipes)
    &&& forall|i: int|
        0 <= i < v.recipes.len() ==> trimmed((#[trigger] v.recipes[i]).key) == v.recipes[i].key
    &&& depex_well_formed(v.depex, v.recipes)
}

proof fn lemma_with_items_differ(entries: Seq<EntryView>, key: Seq<char>, items: Seq<Seq<char>>)
    requires
        entries_differ(entries),
    ensures
        entries_differ(with_items(entries, key, items)),
{
    lemma_entry_from(entries, key, 0);
}

/// The first entry with a key is the one that none with the key precedes.
proof fn lemma_entry_is(entries: Seq<EntryView>, key: Seq<char>, i: int, at: int)
    requires
        0 <= i <= at <= entries.len(),
        at < entries.len() ==> entries[at].key == key,
        forall|k: int| i <= k < at ==> (#[trigger] entries[k]).key != key,
    ensures
        entry_from(entries, key, i) == at,
    decreases at - i,
{
    if i < at {
        assert(entries[i].key != key);
        lemma_entry_is(entries, key, i + 1, at);
    }
}

/// What goes under a key is found under it, and other keys keep what they had.
pub proof fn lemma_items_of(
    entries: Seq<EntryView>,
    key: Seq<char>,
    items: Seq<Seq<char>>,
    k: Seq<char>,
)
    ensures
        items_of(with_items(entries, key, items), k) == (if k == key {
            Some(items)
        } else {
            items_of(entries, k)
        }),
{
    let after = with_items(entries, key, items);
    let at = entry_from(entries, key, 0);
    lemma_entry_from(entries, key, 0);
    lemma_entry_from(entries, k, 0);
    if k == key {
        lemma_entry_is(after, k, 0, at);
    } else {
        let own = entry_from(entries, k, 0);
        if own < entries.len() {
            lemma_entry_is(after, k, 0, own);
        } else {
            assert(forall|j: int| 0 <= j < after.len() ==> (#[trigger] after[j]).key != k);
            lemma_entry_is(after, k, 0, after.len() as int);
        }
    }
}

proof fn lemma_united(set: Seq<Seq<char>>, more: Seq<Seq<char>>)
    requires
        set.no_duplicates(),
    ensures
        united(set, more).no_duplicates(),
    decreases more.len(),
{
    if more.len() > 0 {
        lemma_united(set, more.drop_last());
    }
}

/// Uniting two lists leaves nothing out and adds nothing of its own.
pub proof fn lemma_united_contains(set: Seq<Seq<char>>, more: Seq<Seq<char>>, x: Seq<char>)
    ensures
        united(set, more).contains(x) == (set.contains(x) || more.contains(x)),
    decreases more.len(),
{
    if more.len() > 0 {
        let sofar = united(set, more.drop_last());
        lemma_united_contains(set, more.drop_last(), x);
        assert(more == more.drop_last().push(more.last()));
        let all = united(set, more);
        if sofar.contains(x) {
            let i = choose|i: int| 0 <= i < sofar.len() && sofar[i] == x;
            assert(all[i] == x);
        }
        if more.drop_last().contains(x) {
            let i = choose|i: int| 0 <= i < more.drop_last().len() && more.drop_last()[i] == x;
            assert(more[i] == x);
        }
        if x == more.last() {
            assert(more[more.len() - 1] == x);
            if !sofar.contains(x) {
                assert(all[sofar.len() as int] == x);
            }
        }
        if all.contains(x) && !sofar.contains(x) {
            let i = choose|i: int| 0 <= i < all.len() && all[i] == x;
            assert(i == sofar.len());
        }
        if more.contains(x) && x != more.last() {
            let i = choose|i: int| 0 <= i < more.len() && more[i] == x;
            assert(more.drop_last()[i] == x);
        }
    }
}

proof fn lemma_united_words(set: Seq<Seq<char>>, more: Seq<Seq<char>>)
    requires
        all_words(set),
        all_words(more),
    ensures
        all_words(united(set, more)),
    decreases more.len(),
{
    if more.len() > 0 {
        assert(all_words(more.drop_last())) by {
            assert forall|i: int| 0 <= i < more.len() - 1 implies is_word(
                #[trigger] more.drop_last()[i],
            ) by {
                assert(is_word(more[i]));
            }
        }
        lemma_united_words(set, more.drop_last());
        assert(is_word(more[more.len() - 1]));
    }
}

proof fn lemma_with_depex(
    depex: Seq<EntryView>,
    recipes: Seq<EntryView>,
    targets: Seq<Seq<char>>,
    files: Seq<Seq<char>>,
    k: int,
)
    requires
        depex_well_formed(depex, recipes),
        k <= targets.len(),
        all_words(targets),
        all_words(files),
        forall|i: int| 0 <= i < targets.len() ==> is_target(recipes, #[trigger] targets[i]),
    ensures
        depex_well_formed(with_depex(depex, targets, files, k), recipes),
    decreases k,
{
    if k > 0 {
        lemma_with_depex(depex, recipes, targets, files, k - 1);
        let sofar = with_depex(depex, targets, files, k - 1);
        let key = targets[k - 1];
        let own = listed(sofar, key);
        lemma_entry_from(sofar, key, 0);
        assert(is_word(targets[k - 1]) && is_target(recipes, targets[k - 1]));
        lemma_united(own, files);
        lemma_united_words(own, files);
        lemma_with_items_differ(sofar, key, united(own, files));
    }
}

/// What is a target stays one when something goes under a key.
proof fn lemma_still_target(
    recipes: Seq<EntryView>,
    key: Seq<char>,
    items: Seq<Seq<char>>,
    target: Seq<char>,
)
    requires
        is_target(recipes, target) || words(key).contains(target),
    ensures
        is_target(with_items(recipes, key, items), target),
{
    let after = with_items(recipes, key, items);
    lemma_entry_from(recipes, key, 0);
    if words(key).contains(target) {
        assert(after[entry_from(recipes, key, 0)].key == key);
    } else {
        let r = choose|r: int|
            0 <= r < recipes.len() && words((#[trigger] recipes[r]).key).contains(target);
        assert(after[r].key == recipes[r].key);
    }
}

proof fn lemma_rule_well_formed(st: RecipesView, rule: RuleView)
    requires
        well_formed(st),
    ensures
        well_formed(with_rule(st, rule)),
{
    let target = trimmed(resolved(rule.target, st.vars));
    let commands = listed(st.recipes, target) + all_resolved(rule.commands, st.vars);
    let recipes = with_items(st.recipes, target, commands);
    let targets = words(target);
    law_trimmed_twice(resolved(rule.target, st.vars));
    lemma_entry_from(st.recipes, target, 0);
    lemma_with_items_differ(st.recipes, target, commands);
    assert forall|i: int| 0 <= i < st.depex.len() implies {
        &&& is_word((#[trigger] st.depex[i]).key)
        &&& is_target(recipes, st.depex[i].key)
        &&& st.depex[i].items.no_duplicates()
        &&& all_words(st.depex[i].items)
    } by {
        lemma_still_target(st.recipes, target, commands, st.depex[i].key);
    }
    if rule.depex is Some {
        let files = words(resolved(rule.depex->0, st.vars));
        law_words_are_words(target);
        law_words_are_words(resolved(rule.depex->0, st.vars));
        assert forall|i: int| 0 <= i < targets.len() implies is_target(
            recipes,
            #[trigger] targets[i],
        ) by {
            assert(targets.contains(targets[i]));
            lemma_still_target(st.recipes, target, commands, targets[i]);
        }
        lemma_with_depex(st.depex, recipes, targets, files, targets.len() as int);
    }
}

proof fn lemma_visited_well_formed(nodes: Seq<NodeView>, s: Seq<char>, st: RecipesView, n: int)
    requires
        well_formed(st),
        visited(nodes, s, st, n) is Ok,
    ensures
        well_formed(visited(nodes, s, st, n)->Ok_0),
    decreases n,
{
    if n > 0 {
        lemma_visited_well_formed(nodes, s, st, n - 1);
        if nodes[n - 1].kind == "rule"@ && nodes[n - 1].kind != "ERROR"@ {
            lemma_rule_well_formed(
                visited(nodes, s, st, n - 1)->Ok_0,
                rule_parts(nodes, n - 1, s)->Ok_0,
            );
        }
    }
}

/// Whatever a makefile says, its recipes have one entry for each key, which no white
/// space surrounds; what is said to depend on something is a word and a target of a
/// recipe, and it depends on words, none of which is listed twice.
pub proof fn law_recipes_well_formed(nodes: Seq<NodeView>, s: Seq<char>, workspace: Seq<char>)
    requires
        recipes_of(nodes, s, workspace) is Ok,
    ensures
        well_formed(recipes_of(nodes, s, workspace)->Ok_0),
{
    lemma_visited_well_formed(nodes, s, initial(workspace), nodes.len() as int);
}

/// The commands of a rule come behind those that its targets had, and the commands
/// of all other targets stay as they were.
pub proof fn law_rule_appends_commands(st: RecipesView, rule: RuleView, key: Seq<char>)
    ensures
        ({
            let target = trimmed(resolved(rule.target, st.vars));
            listed(with_rule(st, rule).recipes, key) == (if key == target {
                listed(st.recipes, key) + all_resolved(rule.commands, st.vars)
            } else {
                listed(st.recipes, key)
            })
        }),
        with_rule(st, rule).vars == st.vars,
{
    let target = trimmed(resolved(rule.target, st.vars));
    lemma_items_of(
        st.recipes,
        target,
        listed(st.recipes, target) + all_resolved(rule.commands, st.vars),
        key,
    );
}

proof fn lemma_with_depex_contains(
    depex: Seq<EntryView>,
    targets: Seq<Seq<char>>,
    files: Seq<Seq<char>>,
    k: int,
    key: Seq<char>,
    file: Seq<char>,
)
    requires
        0 <= k <= targets.len(),
    ensures
        listed(with_depex(depex, targets, files, k), key).contains(file) == (listed(
            depex,
            key,
        ).contains(file) || (targets.take(k).contains(key) && files.contains(file))),
    decreases k,
{
    if k > 0 {
        let sofar = with_depex(depex, targets, files, k - 1);
        let last = targets[k - 1];
        let now = targets.take(k);
        lemma_with_depex_contains(depex, targets, files, k - 1, key, file);
        lemma_items_of(sofar, last, united(listed(sofar, last), files), key);
        lemma_united_contains(listed(sofar, last), files, file);
        assert(now == targets.take(k - 1).push(last));
        if key == last {
            assert(now[k - 1] == key);
        } else if targets.take(k - 1).contains(key) {
            let i = targets.take(k - 1).index_of(key);
            assert(now[i] == key);
        } else if now.contains(key) {
            let i = now.index_of(key);
            assert(targets.take(k - 1)[i] == key);
        }
    } else {
        assert(targets.take(0) == Seq::<Seq<char>>::empty());
    }
}

/// After a rule each of its targets depends on what it depended on before and on
/// what the rule names, and on nothing else; all other targets depend on what they
/// depended on.
pub proof fn law_rule_adds_dependencies(
    st: RecipesView,
    rule: RuleView,
    key: Seq<char>,
    file: Seq<char>,
)
    ensures
        ({
            let targets = words(trimmed(resolved(rule.target, st.vars)));
            listed(with_rule(st, rule).depex, key).contains(file) == (listed(
                st.depex,
                key,
            ).contains(file) || (rule.depex is Some && targets.contains(key) && words(
                resolved(rule.depex->0, st.vars),
            ).contains(file)))
        }),
{
    let targets = words(trimmed(resolved(rule.target, st.vars)));
    if rule.depex is Some {
        let files = words(resolved(rule.depex->0, st.vars));
        lemma_with_depex_contains(
            st.depex,
            targets,
            files,
            targets.len() as int,
            key,
            file,
        );
        assert(targets.take(targets.len() as int) == targets);
    }
}

/// An assignment gives its variable the value with the references resolved, or
/// nothing where it has no value, and leaves all other variables, the commands and
/// the dependencies as they were.
pub proof fn law_assignment_sets(
    st: RecipesView,
    name: Seq<char>,
    value: Option<Seq<char>>,
    other: Seq<char>,
)
    ensures
        value_of(with_assignment(st, name, value).vars, name) == (match value {
            Some(value) => resolved(value, st.vars),
            None => Seq::empty(),
        }),
        with_assignment(st, name, value).vars.contains_key(name) == (value is Some),
        other != name ==> value_of(with_assignment(st, name, value).vars, other) == value_of(
            st.vars,
            other,
        ),
        with_assignment(st, name, value).recipes == st.recipes,
        with_assignment(st, name, value).depex == st.depex,
{
}

} // verus!
