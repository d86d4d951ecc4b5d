//! Sets of namespace names, and the resolution of the namespaces to target.

use crate::error::ConfigError;
use crate::text::{chars_of, text_eq, trim_bounds, trimmed};
use vstd::prelude::*;

verus! {

/// The texts of a sequence of strings.
pub open spec fn texts_of(names: Seq<String>) -> Seq<Seq<char>> {
    names.map_values(|name: String| name@)
}

/// The set of texts that occur in a sequence of strings.
pub open spec fn text_set(names: Seq<String>) -> Set<Seq<char>> {
    texts_of(names).to_set()
}

/// A finite set of non-empty names, kept in the order in which they were
/// first inserted.
#[derive(Debug)]
pub struct NameSet {
    names: Vec<String>,
}

impl View for NameSet {
    type V = Set<Seq<char>>;

    closed spec fn view(&self) -> Set<Seq<char>> {
        text_set(self.names@)
    }
}

impl NameSet {
    #[verifier::type_invariant]
    spec fn holds(self) -> bool {
        &&& texts_of(self.names@).no_duplicates()
        &&& forall|i: int| 0 <= i < self.names.len() ==> (#[trigger] self.names[i])@.len() > 0
    }

    /// The names in insertion order.
    pub closed spec fn ordered(&self) -> Seq<Seq<char>> {
        texts_of(self.names@)
    }

    /// The empty set.
    pub fn new() -> (set: NameSet)
        ensures
            set@ == Set::<Seq<char>>::empty(),
            set.ordered() == Seq::<Seq<char>>::empty(),
    {
        let set = NameSet { names: Vec::new() };
        assert(texts_of(set.names@) == Seq::<Seq<char>>::empty());
        assert(set@ == Set::<Seq<char>>::empty());
        set
    }

    /// The number of names.
    pub fn len(&self) -> (n: usize)
        ensures
            self@.finite(),
            n == self@.len(),
            n == self.ordered().len(),
            self.ordered().no_duplicates(),
            self.ordered().to_set() == self@,
    {
        proof {
            use_type_invariant(self);
            texts_of(self.names@).unique_seq_to_set();
        }
        self.names.len()
    }

    /// The name at place `i` of the insertion order, if there are that many.
    pub fn get(&self, i: usize) -> (name: Option<&String>)
        ensures
            name is Some <==> i < self.ordered().len(),
            name matches Some(text) ==> text@ == self.ordered()[i as int],
    {
        if i < self.names.len() {
            Some(&self.names[i])
        } else {
            None
        }
    }

    /// Whether `name` is a member.
    pub fn contains(&self, name: &str) -> (found: bool)
        ensures
            found == self@.contains(name@),
            name@.len() == 0 ==> !found,
    {
        let found = holds_text(&self.names, name);
        proof {
            use_type_invariant(self);
            if found {
                let texts = texts_of(self.names@);
                let k = choose|k: int| 0 <= k < texts.len() && texts[k] == name@;
                assert(self.names[k]@.len() > 0);
            }
        }
        found
    }

    /// Adds `name` unless it is empty or already a member.
    pub fn insert(&mut self, name: String)
        ensures
            final(self)@ == if name@.len() > 0 {
                old(self)@.insert(name@)
            } else {
                old(self)@
            },
            final(self).ordered() == if name@.len() > 0 && !old(self)@.contains(name@) {
                old(self).ordered().push(name@)
            } else {
                old(self).ordered()
            },
    {
        proof {
            use_type_invariant(&*self);
        }
        if name.as_str().is_empty() || self.contains(name.as_str()) {
            return ;
        }
        let ghost before = texts_of(self.names@);
        let mut names: Vec<String> = Vec::new();
        core::mem::swap(&mut names, &mut self.names);
        names.push(name);
        proof {
            let after = texts_of(names@);
            assert(after == before.push(name@));
            assert forall|k: int| 0 <= k < before.len() implies before[k] != name@ by {
                if before[k] == name@ {
                    assert(before.to_set().contains(before[k]));
                }
            }
            assert(after.no_duplicates());
            assert forall|k: int| 0 <= k < names.len() implies (#[trigger] names[k])@.len() > 0 by {
                if k < before.len() {
                    assert(names[k] == old(self).names[k]);
                }
            }
        }
        self.names = names;
        proof {
            lemma_push_to_set(before, name@);
        }
    }

    /// Whether the two sets share no name.
    pub fn is_disjoint(&self, other: &NameSet) -> (apart: bool)
        ensures
            apart == self@.disjoint(other@),
    {
        let ghost texts = texts_of(self.names@);
        let mut i: usize = 0;
        while i < self.names.len()
            invariant
                i <= self.names.len(),
                texts == texts_of(self.names@),
                forall|k: int| 0 <= k < i ==> !other@.contains(#[trigger] texts[k]),
            decreases self.names.len() - i,
        {
            if other.contains(self.names[i].as_str()) {
                assert(self@.contains(texts[i as int]));
                return false;
            }
            i += 1;
        }
        assert(self@.disjoint(other@)) by {
            assert forall|t: Seq<char>| !(self@.contains(t) && other@.contains(t)) by {
                if self@.contains(t) {
                    let k = choose|k: int| 0 <= k < texts.len() && texts[k] == t;
                    assert(!other@.contains(texts[k]));
                }
            }
        }
        true
    }

    /// The members that also occur in `listed`, in this set's order.
    pub fn retain_listed(&self, listed: &Vec<String>) -> (kept: NameSet)
        ensures
            kept@ == self@.intersect(text_set(listed@)),
            kept.ordered() == self.ordered().filter(member_of(text_set(listed@))),
    {
        proof {
            use_type_invariant(self);
        }
        let ghost texts = texts_of(self.names@);
        let ghost wanted = member_of(text_set(listed@));
        let mut kept = NameSet::new();
        let mut i: usize = 0;
        assert(texts.take(0).to_set() == Set::<Seq<char>>::empty());
        assert(texts.take(0).filter(wanted) == Seq::<Seq<char>>::empty()) by {
            texts.take(0).lemma_filter_len(wanted);
        }
        while i < self.names.len()
            invariant
                i <= self.names.len(),
                texts == texts_of(self.names@),
                texts.no_duplicates(),
                wanted == member_of(text_set(listed@)),
                forall|k: int| 0 <= k < self.names.len() ==> (#[trigger] self.names[k])@.len() > 0,
                kept@ == texts.take(i as int).to_set().intersect(text_set(listed@)),
                kept.ordered() == texts.take(i as int).filter(wanted),
            decreases self.names.len() - i,
        {
            let name = &self.names[i];
            let ghost seen = texts.take(i as int);
            proof {
                assert(texts.take(i + 1) == seen.push(name@));
                lemma_push_to_set(seen, name@);
                seen.lemma_filter_push(name@, wanted);
                assert(!kept@.contains(name@)) by {
                    if seen.to_set().contains(name@) {
                        let k = choose|k: int| 0 <= k < seen.len() && seen[k] == name@;
                        assert(texts[k] == texts[i as int]);
                    }
                }
            }
            if holds_text(listed, name.as_str()) {
                kept.insert(name.clone());
            }
            assert(kept@ == texts.take(i + 1).to_set().intersect(text_set(listed@)));
            i += 1;
        }
        assert(texts.take(i as int) == texts);
        kept
    }
}

/// The test that a text is in `set`.
pub open spec fn member_of(set: Set<Seq<char>>) -> spec_fn(Seq<char>) -> bool {
    |text: Seq<char>| set.contains(text)
}

/// The set of a sequence with one more element is the set with that element.
pub proof fn lemma_push_to_set(s: Seq<Seq<char>>, t: Seq<char>)
    ensures
        s.push(t).to_set() == s.to_set().insert(t),
{
    let after = s.push(t);
    assert forall|x: Seq<char>| after.to_set().contains(x) implies s.to_set().insert(t).contains(
        x,
    ) by {
        let i = choose|i: int| 0 <= i < after.len() && after[i] == x;
        if i < s.len() {
            assert(s[i] == x);
        }
    }
    assert forall|x: Seq<char>| s.to_set().insert(t).contains(x) implies after.to_set().contains(
        x,
    ) by {
        if x == t {
            assert(after[s.len() as int] == x);
        } else {
            let i = choose|i: int| 0 <= i < s.len() && s[i] == x;
            assert(after[i] == x);
        }
    }
}

/// Whether `name` occurs in `names`.
pub fn holds_text(names: &Vec<String>, name: &str) -> (found: bool)
    ensures
        found == text_set(names@).contains(name@),
{
    let ghost texts = texts_of(names@);
    let mut i: usize = 0;
    while i < names.len()
        invariant
            i <= names.len(),
            texts == texts_of(names@),
            forall|k: int| 0 <= k < i ==> texts[k] != name@,
        decreases names.len() - i,
    {
        if text_eq(names[i].as_str(), name) {
            assert(texts[i as int] == name@);
            return true;
        }
        i += 1;
    }
    false
}

/// The pieces into which the commas cut `s`. A text without a comma is one
/// piece; `n` commas give `n + 1` pieces, some of which may be empty.
pub open spec fn fields(s: Seq<char>) -> Seq<Seq<char>>
    decreases s.len(),
{
    if s.len() == 0 {
        seq![Seq::<char>::empty()]
    } else {
        let before = fields(s.drop_last());
        if s.last() == ',' {
            before.push(Seq::<char>::empty())
        } else {
            before.update(before.len() - 1, before.last().push(s.last()))
        }
    }
}

/// The pieces put together again, with a comma between neighbours.
pub open spec fn joined(pieces: Seq<Seq<char>>) -> Seq<char>
    decreases pieces.len(),
{
    if pieces.len() == 0 {
        Seq::<char>::empty()
    } else if pieces.len() == 1 {
        pieces[0]
    } else {
        joined(pieces.drop_last()).push(',') + pieces.last()
    }
}

/// The non-empty trimmed pieces, as a set.
pub open spec fn names_of(pieces: Seq<Seq<char>>) -> Set<Seq<char>> {
    Set::new(
        |name: Seq<char>|
            name.len() > 0 && exists|i: int|
                0 <= i < pieces.len() && trimmed(#[trigger] pieces[i]) == name,
    )
}

/// The names that a comma-separated list holds: each piece trimmed, the
/// empty ones left out.
pub open spec fn names_in(csv: Seq<char>) -> Set<Seq<char>> {
    names_of(fields(csv))
}

/// The non-empty trimmed pieces, each once, in the order in which they
/// first come.
pub open spec fn first_names(pieces: Seq<Seq<char>>) -> Seq<Seq<char>>
    decreases pieces.len(),
{
    if pieces.len() == 0 {
        Seq::empty()
    } else {
        let before = first_names(pieces.drop_last());
        let name = trimmed(pieces.last());
        if name.len() > 0 && !names_of(pieces.drop_last()).contains(name) {
            before.push(name)
        } else {
            before
        }
    }
}

/// The names of a comma-separated list in the order in which they first
/// come.
pub open spec fn name_order(csv: Seq<char>) -> Seq<Seq<char>> {
    first_names(fields(csv))
}

/// Cutting at the commas loses nothing: there is at least one piece, no piece
/// holds a comma, and the pieces joined by commas are the text again.
pub proof fn lemma_fields_join(s: Seq<char>)
    ensures
        fields(s).len() >= 1,
        forall|i: int| 0 <= i < fields(s).len() ==> !(#[trigger] fields(s)[i]).contains(','),
        joined(fields(s)) == s,
    decreases s.len(),
{
    if s.len() == 0 {
        assert(joined(fields(s)) == s);
    } else {
        let head = s.drop_last();
        let before = fields(head);
        lemma_fields_join(head);
        if s.last() == ',' {
            let after = before.push(Seq::<char>::empty());
            assert(after.drop_last() == before);
            assert(joined(after) == joined(before).push(',') + Seq::<char>::empty());
            assert(joined(after) == s);
        } else {
            let grown = before.last().push(s.last());
            let after = before.update(before.len() - 1, grown);
            assert forall|i: int| 0 <= i < after.len() implies !(#[trigger] after[i]).contains(
                ',',
            ) by {
                if i == before.len() - 1 {
                    assert(!before[i].contains(','));
                    if grown.contains(',') {
                        let k = choose|k: int| 0 <= k < grown.len() && grown[k] == ',';
                        assert(before[i][k] == ',');
                    }
                } else {
                    assert(!before[i].contains(','));
                }
            }
            if before.len() == 1 {
                assert(joined(after) == grown);
                assert(joined(before) == before[0]);
                assert(grown == s);
            } else {
                assert(after.drop_last() == before.drop_last());
                assert(joined(after) == joined(before.drop_last()).push(',') + grown);
                assert(joined(before) == joined(before.drop_last()).push(',') + before.last());
                assert(joined(after) == joined(before).push(s.last()));
                assert(joined(after) == s);
            }
        }
    }
}

/// One more piece adds its trimmed text to the names, unless that is empty.
pub proof fn lemma_names_of_push(pieces: Seq<Seq<char>>, piece: Seq<char>)
    ensures
        names_of(pieces.push(piece)) == if trimmed(piece).len() > 0 {
            names_of(pieces).insert(trimmed(piece))
        } else {
            names_of(pieces)
        },
{
    let more = pieces.push(piece);
    let want = if trimmed(piece).len() > 0 {
        names_of(pieces).insert(trimmed(piece))
    } else {
        names_of(pieces)
    };
    assert forall|name: Seq<char>| names_of(more).contains(name) implies want.contains(name) by {
        let i = choose|i: int| 0 <= i < more.len() && trimmed(#[trigger] more[i]) == name;
        if i < pieces.len() {
            assert(trimmed(pieces[i]) == name);
        }
    }
    assert forall|name: Seq<char>| want.contains(name) implies names_of(more).contains(name) by {
        if names_of(pieces).contains(name) {
            let i = choose|i: int| 0 <= i < pieces.len() && trimmed(#[trigger] pieces[i]) == name;
            assert(trimmed(more[i]) == name);
        } else {
            assert(trimmed(more[pieces.len() as int]) == name);
        }
    }
    assert(names_of(more) == want);
}

/// Reads a comma-separated list of names: each piece is trimmed, and the
/// empty ones are left out.
pub fn parse_name_list(csv: &str) -> (set: NameSet)
    ensures
        set@ == names_in(csv@),
        set.ordered() == name_order(csv@),
{
    let chars = chars_of(csv);
    let mut set = NameSet::new();
    let ghost mut done: Seq<Seq<char>> = Seq::empty();
    let mut start: usize = 0;
    let mut i: usize = 0;
    assert(names_of(done) == Set::<Seq<char>>::empty());
    assert(first_names(done) == Seq::<Seq<char>>::empty());
    assert(chars@.take(0) == Seq::<char>::empty());
    assert(chars@.subrange(0, 0) == Seq::<char>::empty());
    assert(fields(chars@.take(0)) == done.push(chars@.subrange(0, 0)));
    while i < chars.len()
        invariant
            chars@ == csv@,
            start <= i <= chars.len(),
            fields(chars@.take(i as int)) == done.push(chars@.subrange(start as int, i as int)),
            set@ == names_of(done),
            set.ordered() == first_names(done),
        decreases chars.len() - i,
    {
        let ghost piece = chars@.subrange(start as int, i as int);
        proof {
            assert(chars@.take(i + 1).drop_last() == chars@.take(i as int));
            assert(chars@.take(i + 1).last() == chars@[i as int]);
        }
        if chars[i] == ',' {
            let (a, b) = trim_bounds(&chars, start, i);
            if a < b {
                set.insert(csv.substring_char(a, b).to_owned());
            }
            proof {
                lemma_names_of_push(done, piece);
                assert(done.push(piece).drop_last() == done);
                done = done.push(piece);
                assert(chars@.subrange(i + 1, i + 1) == Seq::<char>::empty());
            }
            start = i + 1;
        } else {
            proof {
                assert(piece.push(chars@[i as int]) == chars@.subrange(start as int, i + 1));
                assert(done.push(piece).update(done.len() as int, piece.push(chars@[i as int]))
                    == done.push(chars@.subrange(start as int, i + 1)));
            }
        }
        i += 1;
    }
    let ghost piece = chars@.subrange(start as int, i as int);
    let (a, b) = trim_bounds(&chars, start, i);
    if a < b {
        set.insert(csv.substring_char(a, b).to_owned());
    }
    proof {
        lemma_names_of_push(done, piece);
        assert(done.push(piece).drop_last() == done);
        assert(chars@.take(i as int) == chars@);
    }
    set
}

/// The configured namespaces: those to target and those never to target. No
/// namespace is in both.
#[derive(Debug)]
pub struct NamespaceConfig {
    targets: NameSet,
    blacklist: NameSet,
}

impl NamespaceConfig {
    #[verifier::type_invariant]
    spec fn holds(self) -> bool {
        self.targets@.disjoint(self.blacklist@)
    }

    /// The configured target namespaces.
    pub closed spec fn target_names(&self) -> Set<Seq<char>> {
        self.targets@
    }

    /// The configured blacklist.
    pub closed spec fn blacklisted_names(&self) -> Set<Seq<char>> {
        self.blacklist@
    }

    /// The configured target namespaces in the order of the configuration.
    pub closed spec fn target_order(&self) -> Seq<Seq<char>> {
        self.targets.ordered()
    }

    /// Reads the two comma-separated lists. Fails if and only if a name is
    /// in both.
    pub fn parse(target_namespaces: &str, blacklisted_namespaces: &str) -> (parsed: Result<
        NamespaceConfig,
        ConfigError,
    >)
        ensures
            parsed is Ok <==> names_in(target_namespaces@).disjoint(
                names_in(blacklisted_namespaces@),
            ),
            parsed matches Ok(config) ==> {
                &&& config.target_names() == names_in(target_namespaces@)
                &&& config.target_order() == name_order(target_namespaces@)
                &&& config.blacklisted_names() == names_in(blacklisted_namespaces@)
            },
            parsed matches Err(e) ==> e == ConfigError::OverlappingNamespaces,
    {
        let targets = parse_name_list(target_namespaces);
        let blacklist = parse_name_list(blacklisted_namespaces);
        if targets.is_disjoint(&blacklist) {
            Ok(NamespaceConfig { targets, blacklist })
        } else {
            Err(ConfigError::OverlappingNamespaces)
        }
    }

    /// The target namespaces.
    pub fn targets(&self) -> (set: &NameSet)
        ensures
            set@ == self.target_names(),
            set.ordered() == self.target_order(),
            set@.disjoint(self.blacklisted_names()),
    {
        proof {
            use_type_invariant(self);
        }
        &self.targets
    }

    /// The blacklisted namespaces.
    pub fn blacklist(&self) -> (set: &NameSet)
        ensures
            set@ == self.blacklisted_names(),
            set@.disjoint(self.target_names()),
    {
        proof {
            use_type_invariant(self);
        }
        &self.blacklist
    }

    /// The target namespaces that exist in the cluster. A target that the
    /// cluster lacks is dropped.
    pub fn resolve(&self, namespaces_in_cluster: &Vec<String>) -> (set: NameSet)
        ensures
            set@ == self.target_names().intersect(text_set(namespaces_in_cluster@)),
            set.ordered() == self.target_order().filter(
                member_of(text_set(namespaces_in_cluster@)),
            ),
            set@.disjoint(self.blacklisted_names()),
    {
        proof {
            use_type_invariant(self);
        }
        self.targets.retain_listed(namespaces_in_cluster)
    }
}

/// The namespaces to attack: the configured targets that exist in the
/// cluster. Fails, whatever the cluster holds, if and only if a namespace is
/// both targeted and blacklisted.
pub fn get_targeted_namespace(
    target_namespaces: &str,
    blacklisted_namespaces: &str,
    namespaces_in_cluster: &Vec<String>,
) -> (resolved: Result<NameSet, ConfigError>)
    ensures
        resolved is Ok <==> names_in(target_namespaces@).disjoint(
            names_in(blacklisted_namespaces@),
        ),
        resolved matches Ok(set) ==> {
            &&& set@ == names_in(target_namespaces@).intersect(text_set(namespaces_in_cluster@))
            &&& set@.subset_of(names_in(target_namespaces@))
            &&& set@.disjoint(names_in(blacklisted_namespaces@))
            &&& set.ordered() == name_order(target_namespaces@).filter(
                member_of(text_set(namespaces_in_cluster@)),
            )
        },
        resolved matches Err(e) ==> e == ConfigError::OverlappingNamespaces,
{
    match NamespaceConfig::parse(target_namespaces, blacklisted_namespaces) {
        Ok(config) => Ok(config.resolve(namespaces_in_cluster)),
        Err(e) => Err(e),
    }
}

} // verus!
