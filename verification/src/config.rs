//! The command registry set: one primary registry plus any number of named
//! secondary registries, with single-result lookup (primary wins), conflict
//! enumeration, explicit conflict resolution, a merged listing in which
//! later sources overwrite earlier ones, and case-insensitive search.

use vstd::prelude::*;
use crate::assoc::{
    assoc_find, assoc_map, distinct_keys, lemma_assoc_find_absent, lemma_assoc_find_agree,
    lemma_assoc_find_first, lemma_assoc_map_at, lemma_assoc_map_dom, lemma_assoc_map_insert_mid,
    lemma_assoc_map_push, lemma_assoc_map_remove, lemma_assoc_map_update,
};
use crate::errors::DooError;
use crate::strings::{lex_lt, lemma_lex_connex, lemma_lex_trans, str_eq, str_lex_lt};

verus! {

/// One command definition: a bare template, or a template with a
/// display-only description.
#[derive(Debug)]
pub enum CommandEntry {
    /// Bare form: just the command template.
    Simple(String),
    /// Structured form with an optional description used for search and
    /// display.
    Detailed { command: String, description: Option<String> },
}

/// The characters of an optional string.
pub open spec fn opt_str_view(o: Option<String>) -> Option<Seq<char>> {
    match o {
        Some(s) => Some(s@),
        None => None,
    }
}

impl View for CommandEntry {
    /// The template's characters, and the description's if there is one.
    type V = (Seq<char>, Option<Seq<char>>);

    open spec fn view(&self) -> (Seq<char>, Option<Seq<char>>) {
        match self {
            CommandEntry::Simple(s) => (s@, None),
            CommandEntry::Detailed { command, description } => (
                command@,
                opt_str_view(*description),
            ),
        }
    }
}

impl CommandEntry {
    /// The command template.
    pub fn command_str(&self) -> (r: &str)
        ensures
            r@ == self@.0,
    {
        match self {
            CommandEntry::Simple(s) => s.as_str(),
            CommandEntry::Detailed { command, .. } => command.as_str(),
        }
    }

    /// The description, if the entry carries one.
    pub fn description(&self) -> (r: Option<&str>)
        ensures
            match r {
                Some(d) => self@.1 == Some(d@),
                None => self@.1 is None,
            },
    {
        match self {
            CommandEntry::Simple(_) => None,
            CommandEntry::Detailed { description, .. } => match description {
                Some(d) => Some(d.as_str()),
                None => None,
            },
        }
    }

    /// A copy with the same template and description.
    pub fn duplicate(&self) -> (r: CommandEntry)
        ensures
            r@ == self@,
    {
        match self {
            CommandEntry::Simple(s) => CommandEntry::Simple(s.clone()),
            CommandEntry::Detailed { command, description } => CommandEntry::Detailed {
                command: command.clone(),
                description: match description {
                    Some(d) => Some(d.clone()),
                    None => None,
                },
            },
        }
    }
}

/// Where an imported registry came from, for later refresh.
#[derive(Debug)]
pub struct ConfigOrigin {
    /// The remote identifier, in `owner/repo` form.
    pub repo: String,
    /// Whether the remote is fetched over the public interface or needs
    /// credentials.
    pub import_type: ImportType,
}

/// The visibility class of a remote origin.
#[derive(Debug, Clone, Copy, PartialEq, Eq)]
pub enum ImportType {
    Public,
    Private,
}

impl ConfigOrigin {
    /// A copy with the same identifier and visibility.
    pub fn duplicate(&self) -> (r: ConfigOrigin)
        ensures
            r.repo@ == self.repo@,
            r.import_type == self.import_type,
    {
        ConfigOrigin { repo: self.repo.clone(), import_type: self.import_type }
    }
}

/// One registry: a mapping from command name to entry, optionally tagged
/// with the remote origin it was imported from.
#[derive(Debug)]
pub struct Config {
    /// The name/entry pairs; names are pairwise distinct.
    pub commands: Vec<(String, CommandEntry)>,
    /// Present only on registries imported from a remote source.
    pub origin: Option<ConfigOrigin>,
}

impl Config {
    /// The name/entry pairs as character sequences.
    pub open spec fn entries(&self) -> Seq<(Seq<char>, (Seq<char>, Option<Seq<char>>))> {
        Seq::new(self.commands@.len(), |i: int| (self.commands@[i].0@, self.commands@[i].1@))
    }

    /// Names are pairwise distinct and no stored template is empty.
    pub open spec fn wf(&self) -> bool {
        &&& distinct_keys(self.entries())
        &&& forall|i: int| 0 <= i < self.entries().len() ==> (#[trigger] self.entries()[i]).1.0.len() > 0
    }

    /// The mapping this registry denotes.
    pub open spec fn as_map(&self) -> Map<Seq<char>, (Seq<char>, Option<Seq<char>>)> {
        assoc_map(self.entries())
    }

    /// An empty registry with no origin.
    pub fn new() -> (r: Config)
        ensures
            r.entries() =~= Seq::<(Seq<char>, (Seq<char>, Option<Seq<char>>))>::empty(),
            r.origin is None,
            r.wf(),
    {
        Config { commands: Vec::new(), origin: None }
    }

    /// The index of the pair holding `name`, if any.
    fn find(&self, name: &str) -> (r: Option<usize>)
        ensures
            match r {
                Some(i) => i < self.entries().len() && self.entries()[i as int].0 == name@
                    && forall|j: int| 0 <= j < i ==> (#[trigger] self.entries()[j]).0 != name@,
                None => forall|i: int|
                    0 <= i < self.entries().len() ==> (#[trigger] self.entries()[i]).0 != name@,
            },
    {
        for i in 0..self.commands.len()
            invariant
                forall|j: int| 0 <= j < i ==> (#[trigger] self.entries()[j]).0 != name@,
        {
            if str_eq(self.commands[i].0.as_str(), name) {
                return Some(i);
            }
        }
        None
    }

    /// A reference to the entry stored under `name`, if any.
    pub fn get(&self, name: &str) -> (r: Option<&CommandEntry>)
        requires
            self.wf(),
        ensures
            match r {
                Some(e) => self.as_map().contains_key(name@) && e@ == self.as_map()[name@],
                None => !self.as_map().contains_key(name@),
            },
    {
        proof {
            lemma_assoc_map_dom(self.entries());
            lemma_assoc_map_at(self.entries());
        }
        match self.find(name) {
            Some(i) => Some(&self.commands[i].1),
            None => None,
        }
    }

    /// Inserts or overwrites `name` with the given entry.
    pub fn insert(&mut self, name: &str, entry: CommandEntry)
        requires
            old(self).wf(),
            entry@.0.len() > 0,
        ensures
            final(self).wf(),
            final(self).as_map() == old(self).as_map().insert(name@, entry@),
            final(self).origin == old(self).origin,
    {
        let ghost e = entry@;
        match self.find(name) {
            Some(i) => {
                let slot = &mut self.commands[i];
                slot.1 = entry;
                proof {
                    assert(self.entries() =~= old(self).entries().update(i as int, (name@, e)));
                    lemma_assoc_map_update(old(self).entries(), i as int, e);
                }
            },
            None => {
                self.commands.push((name.to_owned(), entry));
                proof {
                    assert(self.entries() =~= old(self).entries().push((name@, e)));
                    lemma_assoc_map_push(old(self).entries(), name@, e);
                    assert forall|a: int, b: int|
                        0 <= a < b < self.entries().len() implies (#[trigger] self.entries()[a]).0
                        != (#[trigger] self.entries()[b]).0 by {
                        if b < self.entries().len() - 1 {
                            assert(old(self).entries()[a].0 != old(self).entries()[b].0);
                        }
                    }
                }
            },
        }
    }

    /// Deletes `name`; reports whether a pair was removed.
    pub fn delete(&mut self, name: &str) -> (r: bool)
        requires
            old(self).wf(),
        ensures
            final(self).wf(),
            r == old(self).as_map().contains_key(name@),
            final(self).as_map() == old(self).as_map().remove(name@),
            final(self).origin == old(self).origin,
    {
        proof {
            lemma_assoc_map_dom(self.entries());
        }
        match self.find(name) {
            Some(i) => {
                self.commands.remove(i);
                proof {
                    assert(self.entries() =~= old(self).entries().remove(i as int));
                    lemma_assoc_map_remove(old(self).entries(), i as int);
                    assert forall|a: int, b: int|
                        0 <= a < b < self.entries().len() implies (#[trigger] self.entries()[a]).0
                        != (#[trigger] self.entries()[b]).0 by {
                        let a0 = if a < i { a } else { a + 1 };
                        let b0 = if b < i { b } else { b + 1 };
                        assert(old(self).entries()[a0].0 != old(self).entries()[b0].0);
                    }
                    assert forall|k: int|
                        0 <= k < self.entries().len() implies (#[trigger] self.entries()[k]).1.0.len()
                        > 0 by {
                        let k0 = if k < i { k } else { k + 1 };
                        assert(old(self).entries()[k0].1.0.len() > 0);
                    }
                }
                true
            },
            None => {
                proof {
                    assert(!old(self).as_map().contains_key(name@));
                    assert(self.as_map() =~= old(self).as_map().remove(name@));
                }
                false
            },
        }
    }

    /// Builds a registry from a list of pairs.  Succeeds exactly when the
    /// pairs are structurally valid: refused, with `MalformedDocument`,
    /// when two pairs share a name or a template is empty.
    pub fn from_entries(entries: Vec<(String, CommandEntry)>, origin: Option<ConfigOrigin>) -> (r:
        Result<Config, DooError>)
        ensures
            match r {
                Ok(c) => {
                    &&& c.commands@ == entries@
                    &&& c.wf()
                    &&& c.origin == origin
                },
                Err(e) => {
                    &&& e == DooError::MalformedDocument
                    &&& !valid_entry_pairs(entry_pairs_view(entries@))
                },
            },
    {
        let c = Config { commands: entries, origin };
        proof {
            assert(c.entries() =~= entry_pairs_view(c.commands@));
        }
        for i in 0..c.commands.len()
            invariant
                c.commands@ == entries@,
                c.entries() == entry_pairs_view(entries@),
                forall|a: int, b: int|
                    0 <= a < b < i ==> (#[trigger] c.entries()[a]).0 != (#[trigger] c.entries()[b]).0,
                forall|a: int| 0 <= a < i ==> (#[trigger] c.entries()[a]).1.0.len() > 0,
        {
            if c.commands[i].1.command_str().is_empty() {
                proof {
                    assert(c.entries()[i as int].1.0.len() == 0);
                }
                return Err(DooError::MalformedDocument);
            }
            for j in 0..i
                invariant
                    i < c.commands@.len(),
                    c.commands@ == entries@,
                    c.entries() == entry_pairs_view(entries@),
                    forall|b: int|
                        0 <= b < j ==> (#[trigger] c.entries()[b]).0 != c.entries()[i as int].0,
            {
                if str_eq(c.commands[j].0.as_str(), c.commands[i].0.as_str()) {
                    proof {
                        assert(c.entries()[j as int].0 == c.entries()[i as int].0);
                        assert(!distinct_keys(c.entries()));
                    }
                    return Err(DooError::MalformedDocument);
                }
            }
        }
        Ok(c)
    }

    /// A remote registry document must hold at least one command; an empty
    /// one is refused with `EmptyDocument`.
    pub fn require_commands(&self) -> (r: Result<(), DooError>)
        ensures
            r is Ok <==> self.entries().len() > 0,
            r is Err ==> r == Err::<(), DooError>(DooError::EmptyDocument),
    {
        if self.commands.is_empty() {
            Err(DooError::EmptyDocument)
        } else {
            Ok(())
        }
    }
}

/// One definition of a name, tagged with the source that holds it:
/// `main` for the primary registry, else the secondary source's name.
#[derive(Debug)]
pub struct CommandSource {
    pub name: String,
    pub command: String,
    pub description: Option<String>,
    pub source_file: String,
}

/// One merged-search hit.
#[derive(Debug)]
pub struct CommandSearchResult {
    pub name: String,
    pub command: String,
    pub description: Option<String>,
}

/// `cs` reports the definition `tag` (source name and entry) of `name`.
pub open spec fn matches_source(
    cs: CommandSource,
    name: Seq<char>,
    tag: (Seq<char>, (Seq<char>, Option<Seq<char>>)),
) -> bool {
    &&& cs.name@ == name
    &&& cs.source_file@ == tag.0
    &&& cs.command@ == tag.1.0
    &&& opt_str_view(cs.description) == tag.1.1
}

/// The definitions of `name` among the given secondary registries, in
/// order.
pub open spec fn sec_conflicts(ss: Seq<(Seq<char>, Config)>, name: Seq<char>) -> Seq<
    (Seq<char>, (Seq<char>, Option<Seq<char>>)),
>
    decreases ss.len(),
{
    if ss.len() == 0 {
        Seq::empty()
    } else {
        (if ss[0].1.as_map().contains_key(name) {
            seq![(ss[0].0, ss[0].1.as_map()[name])]
        } else {
            Seq::empty()
        }) + sec_conflicts(ss.skip(1), name)
    }
}

/// Skipping secondary registries that do not define the name leaves the
/// conflict enumeration unchanged.
pub proof fn lemma_sec_conflicts_skip_absent(ss: Seq<(Seq<char>, Config)>, name: Seq<char>, i: int)
    requires
        0 <= i <= ss.len(),
        forall|j: int| 0 <= j < i ==> !(#[trigger] ss[j]).1.as_map().contains_key(name),
    ensures
        sec_conflicts(ss, name) == sec_conflicts(ss.skip(i), name),
    decreases i,
{
    if i > 0 {
        assert(!ss[0].1.as_map().contains_key(name));
        assert(Seq::<(Seq<char>, (Seq<char>, Option<Seq<char>>))>::empty() + sec_conflicts(
            ss.skip(1),
            name,
        ) =~= sec_conflicts(ss.skip(1), name));
        assert forall|j: int|
            0 <= j < i - 1 implies !(#[trigger] ss.skip(1)[j]).1.as_map().contains_key(name) by {
            assert(ss[j + 1] == ss.skip(1)[j]);
        }
        lemma_sec_conflicts_skip_absent(ss.skip(1), name, i - 1);
        assert(ss.skip(1).skip(i - 1) =~= ss.skip(i));
    } else {
        assert(ss.skip(0) =~= ss);
    }
}

/// The registry set: the primary (`main`) registry plus the imported
/// secondary registries, kept sorted by source name.
#[derive(Debug)]
pub struct ConfigManager {
    /// The user-owned primary registry; lookups try it first.
    pub main_config: Config,
    /// The secondary registries, sorted strictly by source name; none of
    /// them is named `main`.
    pub imported_configs: Vec<(String, Config)>,
}

impl ConfigManager {
    /// The secondary registries as character-sequence pairs.
    pub open spec fn sources(&self) -> Seq<(Seq<char>, Config)> {
        Seq::new(
            self.imported_configs@.len(),
            |i: int| (self.imported_configs@[i].0@, self.imported_configs@[i].1),
        )
    }

    /// Every registry is well formed, source names are strictly sorted
    /// (hence distinct), and no source is named `main`.
    pub open spec fn wf(&self) -> bool {
        &&& self.main_config.wf()
        &&& forall|i: int| 0 <= i < self.sources().len() ==> (#[trigger] self.sources()[i]).1.wf()
        &&& forall|i: int, j: int|
            0 <= i < j < self.sources().len() ==> lex_lt(self.sources()[i].0, self.sources()[j].0)
        &&& forall|i: int| 0 <= i < self.sources().len() ==> (#[trigger] self.sources()[i]).0 != "main"@
    }

    /// Every definition of `name`, primary first, then the secondary
    /// sources in their stored (sorted) order.
    pub open spec fn conflict_list(&self, name: Seq<char>) -> Seq<
        (Seq<char>, (Seq<char>, Option<Seq<char>>)),
    > {
        (if self.main_config.as_map().contains_key(name) {
            seq![("main"@, self.main_config.as_map()[name])]
        } else {
            Seq::empty()
        }) + sec_conflicts(self.sources(), name)
    }

    /// An empty registry set.
    pub fn new() -> (r: ConfigManager)
        ensures
            r.wf(),
            r.main_config.as_map() =~= Map::<Seq<char>, (Seq<char>, Option<Seq<char>>)>::empty(),
            r.main_config.origin is None,
            r.sources().len() == 0,
    {
        ConfigManager { main_config: Config::new(), imported_configs: Vec::new() }
    }

    /// A registry set whose primary registry holds the seed commands that
    /// a fresh installation starts with.
    pub fn with_default_commands() -> (r: ConfigManager)
        ensures
            r.wf(),
            r.sources().len() == 0,
            r.main_config.origin is None,
            r.main_config.entries().len() == 4,
            r.main_config.entries()[0] == (
                "watch"@,
                (
                    "watch kubectl -n #1 get pods"@,
                    Some("Watch pods in current namespace (#1)"@),
                ),
            ),
            r.main_config.entries()[1] == ("logs"@, ("kubectl logs -f -n #1 #2"@, None::<Seq<char>>)),
            r.main_config.entries()[2] == ("pods"@, ("kubectl get pods -n #1"@, None::<Seq<char>>)),
            r.main_config.entries()[3] == (
                "describe"@,
                ("kubectl describe pod -n #1 #2"@, None::<Seq<char>>),
            ),
    {
        let mut commands: Vec<(String, CommandEntry)> = Vec::new();
        commands.push(
            (
                "watch".to_owned(),
                CommandEntry::Detailed {
                    command: "watch kubectl -n #1 get pods".to_owned(),
                    description: Some("Watch pods in current namespace (#1)".to_owned()),
                },
            ),
        );
        commands.push(
            ("logs".to_owned(), CommandEntry::Simple("kubectl logs -f -n #1 #2".to_owned())),
        );
        commands.push(
            ("pods".to_owned(), CommandEntry::Simple("kubectl get pods -n #1".to_owned())),
        );
        commands.push(
            (
                "describe".to_owned(),
                CommandEntry::Simple("kubectl describe pod -n #1 #2".to_owned()),
            ),
        );
        let main_config = Config { commands, origin: None };
        let r = ConfigManager { main_config, imported_configs: Vec::new() };
        proof {
            reveal_strlit("watch");
            reveal_strlit("logs");
            reveal_strlit("pods");
            reveal_strlit("describe");
            reveal_strlit("watch kubectl -n #1 get pods");
            reveal_strlit("kubectl logs -f -n #1 #2");
            reveal_strlit("kubectl get pods -n #1");
            reveal_strlit("kubectl describe pod -n #1 #2");
            assert(r.main_config.entries().len() == 4);
            assert(r.wf()) by {
                assert(r.main_config.entries()[0].0 == "watch"@);
                assert(r.main_config.entries()[1].0 == "logs"@);
                assert(r.main_config.entries()[2].0 == "pods"@);
                assert(r.main_config.entries()[3].0 == "describe"@);
                assert("watch"@.len() == 5 && "logs"@.len() == 4 && "pods"@.len() == 4
                    && "describe"@.len() == 8);
                assert("logs"@[0] == 'l' && "pods"@[0] == 'p');
                assert(distinct_keys(r.main_config.entries()));
                assert(forall|i: int|
                    0 <= i < 4 ==> (#[trigger] r.main_config.entries()[i]).1.0.len() > 0);
            }
        }
        r
    }

    /// Every definition of `name`, primary first.  An empty result means
    /// the name is undefined everywhere; more than one result is a
    /// conflict the caller must resolve.
    pub fn get_command_conflicts(&self, name: &str) -> (r: Vec<CommandSource>)
        requires
            self.wf(),
        ensures
            r@.len() == self.conflict_list(name@).len(),
            forall|i: int|
                0 <= i < r@.len() ==> matches_source(
                    #[trigger] r@[i],
                    name@,
                    self.conflict_list(name@)[i],
                ),
    {
        let ghost cl = self.conflict_list(name@);
        let mut r: Vec<CommandSource> = Vec::new();
        match self.main_config.get(name) {
            Some(e) => {
                let cs = CommandSource {
                    name: name.to_owned(),
                    command: e.command_str().to_owned(),
                    description: match e.description() {
                        Some(d) => Some(d.to_owned()),
                        None => None,
                    },
                    source_file: "main".to_owned(),
                };
                r.push(cs);
            },
            None => {},
        }
        proof {
            assert(self.sources().skip(0) =~= self.sources());
            assert(cl.skip(r@.len() as int) =~= sec_conflicts(self.sources(), name@));
        }
        let n = self.imported_configs.len();
        for i in 0..n
            invariant
                self.wf(),
                n == self.imported_configs@.len(),
                cl == self.conflict_list(name@),
                r@.len() <= cl.len(),
                cl.len() == r@.len() + sec_conflicts(self.sources().skip(i as int), name@).len(),
                forall|k: int|
                    0 <= k < r@.len() ==> matches_source(#[trigger] r@[k], name@, cl[k]),
                cl.skip(r@.len() as int) == sec_conflicts(self.sources().skip(i as int), name@),
        {
            let ghost tail = self.sources().skip(i as int);
            proof {
                assert(tail[0] == self.sources()[i as int]);
                assert(tail.skip(1) =~= self.sources().skip(i + 1));
            }
            match self.imported_configs[i].1.get(name) {
                Some(e) => {
                    let ghost r0 = r@;
                    let cs = CommandSource {
                        name: name.to_owned(),
                        command: e.command_str().to_owned(),
                        description: match e.description() {
                            Some(d) => Some(d.to_owned()),
                            None => None,
                        },
                        source_file: self.imported_configs[i].0.clone(),
                    };
                    r.push(cs);
                    proof {
                        assert(tail[0].1.as_map().contains_key(name@));
                        let head = seq![(tail[0].0, tail[0].1.as_map()[name@])];
                        assert(sec_conflicts(tail, name@) == head + sec_conflicts(
                            tail.skip(1),
                            name@,
                        ));
                        assert(cl.skip(r0.len() as int).len() > 0);
                        assert(cl.skip(r0.len() as int)[0] == head[0]);
                        assert(cl[r0.len() as int] == (tail[0].0, tail[0].1.as_map()[name@]));
                        let idx = r0.len() as int;
                        assert(r@[idx].name@ == name@);
                        assert(r@[idx].source_file@ == tail[0].0);
                        assert(r@[idx].command@ == tail[0].1.as_map()[name@].0);
                        assert(opt_str_view(r@[idx].description) == tail[0].1.as_map()[name@].1);
                        assert(matches_source(r@[r0.len() as int], name@, cl[r0.len() as int]));
                        let rest = sec_conflicts(tail.skip(1), name@);
                        assert(rest == sec_conflicts(self.sources().skip(i + 1), name@));
                        assert(cl.skip(idx) == head + rest);
                        assert forall|k: int| 0 <= k < rest.len() implies cl.skip(idx + 1)[k]
                            == rest[k] by {
                            assert(cl.skip(idx + 1)[k] == cl[idx + 1 + k]);
                            assert(cl.skip(idx)[k + 1] == cl[idx + 1 + k]);
                            assert((head + rest)[k + 1] == rest[k]);
                        }
                        assert(cl.skip(idx + 1) =~= rest);
                        assert(cl.skip(r@.len() as int) == sec_conflicts(
                            self.sources().skip(i + 1),
                            name@,
                        ));
                    }
                },
                None => {
                    proof {
                        assert(Seq::<(Seq<char>, (Seq<char>, Option<Seq<char>>))>::empty()
                            + sec_conflicts(tail.skip(1), name@) =~= sec_conflicts(
                            tail.skip(1),
                            name@,
                        ));
                        assert(sec_conflicts(tail, name@) == sec_conflicts(
                            self.sources().skip(i + 1),
                            name@,
                        ));
                    }
                },
            }
        }
        proof {
            assert(self.sources().skip(n as int) =~= Seq::<(Seq<char>, Config)>::empty());
        }
        r
    }

    /// The template of the winning definition of `name`: the primary
    /// registry's if it defines the name, else the first secondary source's
    /// in sorted order.  `Ok(None)` exactly when no registry defines it.
    pub fn get_command(&self, name: &str) -> (r: Result<Option<String>, DooError>)
        requires
            self.wf(),
        ensures
            match r {
                Ok(Some(s)) => self.conflict_list(name@).len() > 0 && s@ == self.conflict_list(
                    name@,
                )[0].1.0,
                Ok(None) => self.conflict_list(name@).len() == 0,
                Err(_) => false,
            },
    {
        let ghost cl = self.conflict_list(name@);
        match self.main_config.get(name) {
            Some(e) => {
                proof {
                    assert(cl[0] == ("main"@, self.main_config.as_map()[name@]));
                }
                return Ok(Some(e.command_str().to_owned()));
            },
            None => {},
        }
        proof {
            assert(cl =~= sec_conflicts(self.sources(), name@));
        }
        let n = self.imported_configs.len();
        for i in 0..n
            invariant
                self.wf(),
                n == self.imported_configs@.len(),
                cl == self.conflict_list(name@),
                cl =~= sec_conflicts(self.sources(), name@),
                forall|j: int|
                    0 <= j < i ==> !(#[trigger] self.sources()[j]).1.as_map().contains_key(name@),
        {
            proof {
                assert(self.sources()[i as int].1 == self.imported_configs@[i as int].1);
            }
            match self.imported_configs[i].1.get(name) {
                Some(e) => {
                    proof {
                        lemma_sec_conflicts_skip_absent(self.sources(), name@, i as int);
                        let tail = self.sources().skip(i as int);
                        assert(tail[0] == self.sources()[i as int]);
                        assert(sec_conflicts(tail, name@)[0] == (
                            tail[0].0,
                            tail[0].1.as_map()[name@],
                        ));
                    }
                    return Ok(Some(e.command_str().to_owned()));
                },
                None => {},
            }
        }
        proof {
            lemma_sec_conflicts_skip_absent(self.sources(), name@, n as int);
            assert(self.sources().skip(n as int) =~= Seq::<(Seq<char>, Config)>::empty());
        }
        Ok(None)
    }

    /// The winning definition of `name` together with its source tag, or
    /// `Ok(None)` when no registry defines it.
    pub fn get_command_with_source(&self, name: &str) -> (r: Result<Option<CommandSource>, DooError>)
        requires
            self.wf(),
        ensures
            match r {
                Ok(Some(cs)) => self.conflict_list(name@).len() > 0 && matches_source(
                    cs,
                    name@,
                    self.conflict_list(name@)[0],
                ),
                Ok(None) => self.conflict_list(name@).len() == 0,
                Err(_) => false,
            },
    {
        let ghost cl = self.conflict_list(name@);
        match self.main_config.get(name) {
            Some(e) => {
                proof {
                    assert(cl[0] == ("main"@, self.main_config.as_map()[name@]));
                }
                return Ok(Some(CommandSource {
                    name: name.to_owned(),
                    command: e.command_str().to_owned(),
                    description: match e.description() {
                        Some(d) => Some(d.to_owned()),
                        None => None,
                    },
                    source_file: "main".to_owned(),
                }));
            },
            None => {},
        }
        proof {
            assert(cl =~= sec_conflicts(self.sources(), name@));
        }
        let n = self.imported_configs.len();
        for i in 0..n
            invariant
                self.wf(),
                n == self.imported_configs@.len(),
                cl == self.conflict_list(name@),
                cl =~= sec_conflicts(self.sources(), name@),
                forall|j: int|
                    0 <= j < i ==> !(#[trigger] self.sources()[j]).1.as_map().contains_key(name@),
        {
            proof {
                assert(self.sources()[i as int].1 == self.imported_configs@[i as int].1);
            }
            match self.imported_configs[i].1.get(name) {
                Some(e) => {
                    proof {
                        lemma_sec_conflicts_skip_absent(self.sources(), name@, i as int);
                        let tail = self.sources().skip(i as int);
                        assert(tail[0] == self.sources()[i as int]);
                        assert(sec_conflicts(tail, name@)[0] == (
                            tail[0].0,
                            tail[0].1.as_map()[name@],
                        ));
                    }
                    return Ok(Some(CommandSource {
                        name: name.to_owned(),
                        command: e.command_str().to_owned(),
                        description: match e.description() {
                            Some(d) => Some(d.to_owned()),
                            None => None,
                        },
                        source_file: self.imported_configs[i].0.clone(),
                    }));
                },
                None => {},
            }
        }
        proof {
            lemma_sec_conflicts_skip_absent(self.sources(), name@, n as int);
            assert(self.sources().skip(n as int) =~= Seq::<(Seq<char>, Config)>::empty());
        }
        Ok(None)
    }

    /// The mapping of the named source: the primary registry for `main`,
    /// else the secondary source of that name, if it exists.
    pub open spec fn source_map(&self, src: Seq<char>) -> Option<
        Map<Seq<char>, (Seq<char>, Option<Seq<char>>)>,
    > {
        if src == "main"@ {
            Some(self.main_config.as_map())
        } else {
            match assoc_find(self.sources(), src) {
                Some(c) => Some(c.as_map()),
                None => None,
            }
        }
    }

    /// The named source's definition of `name`.  `Err` exactly when the
    /// source itself does not exist; `Ok(None)` when the source exists but
    /// does not define the name.
    pub fn resolve_command_conflict(&self, name: &str, chosen_source: &str) -> (r: Result<
        Option<String>,
        DooError,
    >)
        requires
            self.wf(),
        ensures
            match r {
                Ok(opt) => self.source_map(chosen_source@) is Some && (match opt {
                    Some(s) => {
                        let m = self.source_map(chosen_source@)->0;
                        m.contains_key(name@) && s@ == m[name@].0
                    },
                    None => !(self.source_map(chosen_source@)->0).contains_key(name@),
                }),
                Err(e) => e == DooError::InvalidSource && self.source_map(chosen_source@) is None,
            },
    {
        if str_eq(chosen_source, "main") {
            return Ok(
                match self.main_config.get(name) {
                    Some(e) => Some(e.command_str().to_owned()),
                    None => None,
                },
            );
        }
        let n = self.imported_configs.len();
        for i in 0..n
            invariant
                self.wf(),
                chosen_source@ != "main"@,
                n == self.imported_configs@.len(),
                forall|j: int| 0 <= j < i ==> (#[trigger] self.sources()[j]).0 != chosen_source@,
        {
            if str_eq(self.imported_configs[i].0.as_str(), chosen_source) {
                proof {
                    lemma_assoc_find_first(self.sources(), i as int);
                }
                return Ok(
                    match self.imported_configs[i].1.get(name) {
                        Some(e) => Some(e.command_str().to_owned()),
                        None => None,
                    },
                );
            }
        }
        proof {
            lemma_assoc_find_absent(self.sources(), chosen_source@);
        }
        Err(DooError::InvalidSource)
    }

    /// Inserts or overwrites `name` in the primary registry only.
    pub fn add_command(&mut self, name: &str, command: &str) -> (r: Result<(), DooError>)
        requires
            old(self).wf(),
            command@.len() > 0,
        ensures
            r is Ok,
            final(self).wf(),
            final(self).main_config.as_map() == old(self).main_config.as_map().insert(
                name@,
                (command@, None),
            ),
            final(self).main_config.origin == old(self).main_config.origin,
            final(self).imported_configs == old(self).imported_configs,
            final(self).sources() == old(self).sources(),
    {
        self.main_config.insert(name, CommandEntry::Simple(command.to_owned()));
        proof {
            assert(self.sources() =~= old(self).sources());
        }
        Ok(())
    }

    /// Deletes `name` from the primary registry only; reports whether
    /// something was removed.  Secondary registries are never touched.
    pub fn remove_command(&mut self, name: &str) -> (r: Result<bool, DooError>)
        requires
            old(self).wf(),
        ensures
            final(self).wf(),
            match r {
                Ok(b) => {
                    &&& b == old(self).main_config.as_map().contains_key(name@)
                    &&& final(self).main_config.as_map() == old(self).main_config.as_map().remove(
                        name@,
                    )
                    &&& final(self).main_config.origin == old(self).main_config.origin
                    &&& final(self).imported_configs == old(self).imported_configs
                    &&& final(self).sources() == old(self).sources()
                },
                Err(_) => false,
            },
    {
        let b = self.main_config.delete(name);
        proof {
            assert(self.sources() =~= old(self).sources());
        }
        Ok(b)
    }
}

/// The name/entry pairs of a bare pair vector, as character sequences.
pub open spec fn entry_pairs_view(v: Seq<(String, CommandEntry)>) -> Seq<
    (Seq<char>, (Seq<char>, Option<Seq<char>>)),
> {
    Seq::new(v.len(), |i: int| (v[i].0@, v[i].1@))
}

/// Structural validity of a registry document's pairs: names pairwise
/// distinct and no template empty.
pub open spec fn valid_entry_pairs(es: Seq<(Seq<char>, (Seq<char>, Option<Seq<char>>))>) -> bool {
    &&& distinct_keys(es)
    &&& forall|i: int| 0 <= i < es.len() ==> (#[trigger] es[i]).1.0.len() > 0
}

/// Entries laid over a base mapping, later entries overwriting earlier
/// ones.
pub open spec fn overlay(
    m: Map<Seq<char>, (Seq<char>, Option<Seq<char>>)>,
    es: Seq<(Seq<char>, (Seq<char>, Option<Seq<char>>))>,
) -> Map<Seq<char>, (Seq<char>, Option<Seq<char>>)>
    decreases es.len(),
{
    if es.len() == 0 {
        m
    } else {
        overlay(m, es.drop_last()).insert(es.last().0, es.last().1)
    }
}

impl ConfigManager {
    /// The flattened view after laying the first `i` secondary registries
    /// over the primary one, in source order.
    pub open spec fn merged_upto(&self, i: int) -> Map<Seq<char>, (Seq<char>, Option<Seq<char>>)>
        decreases i,
    {
        if i <= 0 {
            self.main_config.as_map()
        } else {
            overlay(self.merged_upto(i - 1), self.sources()[i - 1].1.entries())
        }
    }

    /// The flattened name-to-entry view: every secondary registry laid over
    /// the primary one, later sources overwriting earlier ones.  Note this
    /// is the opposite precedence from single-result lookup.
    pub open spec fn merged(&self) -> Map<Seq<char>, (Seq<char>, Option<Seq<char>>)> {
        self.merged_upto(self.sources().len() as int)
    }

    /// Inserts or overwrites one pair in an association vector.
    fn upsert(acc: &mut Vec<(String, CommandEntry)>, name: String, entry: CommandEntry)
        requires
            distinct_keys(entry_pairs_view(old(acc)@)),
        ensures
            distinct_keys(entry_pairs_view(final(acc)@)),
            assoc_map(entry_pairs_view(final(acc)@)) == assoc_map(
                entry_pairs_view(old(acc)@),
            ).insert(name@, entry@),
    {
        let ghost e = entry@;
        let ghost nv = name@;
        let n = acc.len();
        let mut found: Option<usize> = None;
        for i in 0..n
            invariant
                n == acc@.len(),
                acc@ == old(acc)@,
                nv == name@,
                match found {
                    Some(f) => f < n && entry_pairs_view(acc@)[f as int].0 == nv,
                    None => forall|j: int|
                        0 <= j < i ==> (#[trigger] entry_pairs_view(acc@)[j]).0 != nv,
                },
        {
            if found.is_none() && str_eq(acc[i].0.as_str(), name.as_str()) {
                found = Some(i);
                proof {
                    assert(entry_pairs_view(acc@)[i as int].0 == acc@[i as int].0@);
                }
            }
        }
        if let Some(i) = found {
            let slot = &mut acc[i];
            slot.1 = entry;
            proof {
                assert(entry_pairs_view(acc@) =~= entry_pairs_view(old(acc)@).update(
                    i as int,
                    (nv, e),
                ));
                lemma_assoc_map_update(entry_pairs_view(old(acc)@), i as int, e);
            }
            return ;
        }
        acc.push((name, entry));
        proof {
            assert(entry_pairs_view(acc@) =~= entry_pairs_view(old(acc)@).push((nv, e)));
            lemma_assoc_map_push(entry_pairs_view(old(acc)@), nv, e);
            assert forall|a: int, b: int|
                0 <= a < b < entry_pairs_view(acc@).len() implies (#[trigger] entry_pairs_view(
                acc@,
            )[a]).0 != (#[trigger] entry_pairs_view(acc@)[b]).0 by {
                if b < entry_pairs_view(acc@).len() - 1 {
                    assert(entry_pairs_view(old(acc)@)[a].0 != entry_pairs_view(old(acc)@)[b].0);
                }
            }
        }
    }

    /// The merged view as an association vector with distinct names.
    fn merged_vec(&self) -> (r: Vec<(String, CommandEntry)>)
        requires
            self.wf(),
        ensures
            distinct_keys(entry_pairs_view(r@)),
            assoc_map(entry_pairs_view(r@)) == self.merged(),
    {
        let mut acc: Vec<(String, CommandEntry)> = Vec::new();
        let nm = self.main_config.commands.len();
        proof {
            assert(entry_pairs_view(acc@) =~= Seq::<
                (Seq<char>, (Seq<char>, Option<Seq<char>>)),
            >::empty());
            assert(assoc_map(entry_pairs_view(acc@)) =~= assoc_map(
                self.main_config.entries().take(0),
            ));
        }
        for j in 0..nm
            invariant
                self.wf(),
                nm == self.main_config.commands@.len(),
                distinct_keys(entry_pairs_view(acc@)),
                assoc_map(entry_pairs_view(acc@)) == assoc_map(
                    self.main_config.entries().take(j as int),
                ),
        {
            let name = self.main_config.commands[j].0.clone();
            let entry = self.main_config.commands[j].1.duplicate();
            proof {
                assert(self.main_config.entries().take(j + 1) =~= self.main_config.entries().take(
                    j as int,
                ).push(self.main_config.entries()[j as int]));
                lemma_assoc_map_push(
                    self.main_config.entries().take(j as int),
                    self.main_config.entries()[j as int].0,
                    self.main_config.entries()[j as int].1,
                );
            }
            Self::upsert(&mut acc, name, entry);
        }
        proof {
            assert(self.main_config.entries().take(nm as int) =~= self.main_config.entries());
            assert(assoc_map(entry_pairs_view(acc@)) == self.merged_upto(0));
        }
        let ns = self.imported_configs.len();
        for i in 0..ns
            invariant
                self.wf(),
                ns == self.imported_configs@.len(),
                distinct_keys(entry_pairs_view(acc@)),
                assoc_map(entry_pairs_view(acc@)) == self.merged_upto(i as int),
        {
            let ghost src = self.sources()[i as int].1;
            let nc = self.imported_configs[i].1.commands.len();
            proof {
                assert(src == self.imported_configs@[i as int].1);
                assert(src.entries().take(0) =~= Seq::<
                    (Seq<char>, (Seq<char>, Option<Seq<char>>)),
                >::empty());
                assert(overlay(self.merged_upto(i as int), src.entries().take(0))
                    == self.merged_upto(i as int));
            }
            for j in 0..nc
                invariant
                    self.wf(),
                    ns == self.imported_configs@.len(),
                    i < ns,
                    src == self.sources()[i as int].1,
                    src == self.imported_configs@[i as int].1,
                    nc == self.imported_configs@[i as int].1.commands@.len(),
                    distinct_keys(entry_pairs_view(acc@)),
                    assoc_map(entry_pairs_view(acc@)) == overlay(
                        self.merged_upto(i as int),
                        src.entries().take(j as int),
                    ),
            {
                let name = self.imported_configs[i].1.commands[j].0.clone();
                let entry = self.imported_configs[i].1.commands[j].1.duplicate();
                proof {
                    assert(src.entries().take(j + 1) =~= src.entries().take(j as int).push(
                        src.entries()[j as int],
                    ));
                    assert(src.entries().take(j + 1).drop_last() =~= src.entries().take(j as int));
                    assert(src.entries().take(j + 1).last() == src.entries()[j as int]);
                    assert(overlay(self.merged_upto(i as int), src.entries().take(j + 1))
                        == overlay(self.merged_upto(i as int), src.entries().take(j as int)).insert(
                        src.entries()[j as int].0,
                        src.entries()[j as int].1,
                    ));
                }
                Self::upsert(&mut acc, name, entry);
            }
            proof {
                assert(src.entries().take(nc as int) =~= src.entries());
                assert(self.merged_upto(i + 1) == overlay(
                    self.merged_upto(i as int),
                    src.entries(),
                ));
            }
        }
        acc
    }

    /// Inserts a pair with a fresh name into a strictly sorted
    /// association vector at its ordered position.
    #[verifier::rlimit(60)]
    fn sorted_insert(out: &mut Vec<(String, CommandEntry)>, name: String, entry: CommandEntry)
        requires
            forall|a: int, b: int|
                0 <= a < b < old(out)@.len() ==> lex_lt(
                    (#[trigger] entry_pairs_view(old(out)@)[a]).0,
                    (#[trigger] entry_pairs_view(old(out)@)[b]).0,
                ),
            forall|a: int|
                0 <= a < old(out)@.len() ==> (#[trigger] entry_pairs_view(old(out)@)[a]).0 != name@,
        ensures
            final(out)@.len() == old(out)@.len() + 1,
            forall|a: int, b: int|
                0 <= a < b < final(out)@.len() ==> lex_lt(
                    (#[trigger] entry_pairs_view(final(out)@)[a]).0,
                    (#[trigger] entry_pairs_view(final(out)@)[b]).0,
                ),
            assoc_map(entry_pairs_view(final(out)@)) == assoc_map(
                entry_pairs_view(old(out)@),
            ).insert(name@, entry@),
    {
        let ghost ov = entry_pairs_view(old(out)@);
        let n = out.len();
        let mut p: usize = 0;
        while p < n && !str_lex_lt(name.as_str(), out[p].0.as_str())
            invariant
                n == out@.len(),
                out@ == old(out)@,
                ov == entry_pairs_view(out@),
                p <= n,
                forall|j: int| 0 <= j < p ==> !lex_lt(name@, (#[trigger] ov[j]).0),
            decreases n - p,
        {
            proof {
                assert(ov[p as int].0 == out@[p as int].0@);
            }
            p = p + 1;
        }
        proof {
            assert forall|j: int| 0 <= j < p implies lex_lt((#[trigger] ov[j]).0, name@) by {
                lemma_lex_connex(name@, ov[j].0);
            }
            if p < n {
                assert(ov[p as int].0 == out@[p as int].0@);
                assert(lex_lt(name@, ov[p as int].0));
            }
        }
        out.insert(p, (name, entry));
        proof {
            let nv = entry_pairs_view(out@);
            assert(nv =~= ov.insert(p as int, (name@, entry@)));
            lemma_assoc_map_insert_mid(ov, p as int, name@, entry@);
            assert forall|a: int, b: int|
                0 <= a < b < nv.len() implies lex_lt((#[trigger] nv[a]).0, (#[trigger] nv[b]).0) by {
                if a < p && b < p {
                    assert(nv[a] == ov[a] && nv[b] == ov[b]);
                } else if a < p && b == p {
                    assert(nv[a] == ov[a]);
                } else if a < p && b > p {
                    assert(nv[a] == ov[a] && nv[b] == ov[b - 1]);
                    if a <= b - 2 {
                    } else {
                        assert(a == b - 1);
                        assert(lex_lt(ov[a].0, name@));
                        assert(lex_lt(name@, ov[a].0) == false);
                        lemma_lex_connex(name@, ov[a].0);
                    }
                } else if a == p && b > p {
                    assert(nv[b] == ov[b - 1]);
                    assert(lex_lt(name@, ov[b - 1].0)) by {
                        if b - 1 > p {
                            assert(lex_lt(name@, ov[p as int].0));
                            assert(lex_lt(ov[p as int].0, ov[b - 1].0));
                            lemma_lex_trans(name@, ov[p as int].0, ov[b - 1].0);
                        }
                    }
                } else {
                    assert(a > p && b > p);
                    assert(nv[a] == ov[a - 1] && nv[b] == ov[b - 1]);
                }
            }
        }
    }
}

/// The query hits an entry: an empty query hits everything, else the
/// lowercase query must occur in the lowercase name, template or
/// description.
pub open spec fn search_hit(
    query: Seq<char>,
    name: Seq<char>,
    e: (Seq<char>, Option<Seq<char>>),
) -> bool {
    let q = crate::strings::lower_of(query);
    ||| q.len() == 0
    ||| crate::strings::contains_seq(crate::strings::lower_of(name), q)
    ||| crate::strings::contains_seq(crate::strings::lower_of(e.0), q)
    ||| (e.1 is Some && crate::strings::contains_seq(crate::strings::lower_of(e.1->0), q))
}

impl ConfigManager {
    /// Turns an association vector with distinct names into a strictly
    /// sorted one denoting the same mapping.
    fn sort_pairs(mv: Vec<(String, CommandEntry)>) -> (r: Vec<(String, CommandEntry)>)
        requires
            distinct_keys(entry_pairs_view(mv@)),
        ensures
            forall|a: int, b: int|
                0 <= a < b < r@.len() ==> lex_lt(
                    (#[trigger] entry_pairs_view(r@)[a]).0,
                    (#[trigger] entry_pairs_view(r@)[b]).0,
                ),
            assoc_map(entry_pairs_view(r@)) == assoc_map(entry_pairs_view(mv@)),
    {
        let ghost mvv = entry_pairs_view(mv@);
        proof {
            lemma_assoc_map_dom(mvv);
        }
        let mut sorted: Vec<(String, CommandEntry)> = Vec::new();
        let n = mv.len();
        proof {
            assert(entry_pairs_view(sorted@) =~= Seq::<
                (Seq<char>, (Seq<char>, Option<Seq<char>>)),
            >::empty());
            assert(assoc_map(entry_pairs_view(sorted@)) =~= assoc_map(mvv.take(0)));
        }
        for k in 0..n
            invariant
                n == mv@.len(),
                mvv == entry_pairs_view(mv@),
                distinct_keys(mvv),
                forall|a: int, b: int|
                    0 <= a < b < sorted@.len() ==> lex_lt(
                        (#[trigger] entry_pairs_view(sorted@)[a]).0,
                        (#[trigger] entry_pairs_view(sorted@)[b]).0,
                    ),
                assoc_map(entry_pairs_view(sorted@)) == assoc_map(mvv.take(k as int)),
        {
            proof {
                lemma_assoc_map_dom(mvv.take(k as int));
                lemma_assoc_map_dom(entry_pairs_view(sorted@));
                assert forall|a: int|
                    0 <= a < sorted@.len() implies (#[trigger] entry_pairs_view(sorted@)[a]).0
                    != mv@[k as int].0@ by {
                    if entry_pairs_view(sorted@)[a].0 == mv@[k as int].0@ {
                        assert(assoc_map(entry_pairs_view(sorted@)).contains_key(
                            entry_pairs_view(sorted@)[a].0,
                        ));
                        let j = choose|j: int|
                            0 <= j < mvv.take(k as int).len() && mvv.take(k as int)[j].0
                                == entry_pairs_view(sorted@)[a].0;
                        assert(mvv[j].0 == mvv[k as int].0);
                    }
                }
                assert(mvv.take(k + 1) =~= mvv.take(k as int).push(mvv[k as int]));
                lemma_assoc_map_push(mvv.take(k as int), mvv[k as int].0, mvv[k as int].1);
                assert(mvv[k as int] == (mv@[k as int].0@, mv@[k as int].1@));
            }
            Self::sorted_insert(&mut sorted, mv[k].0.clone(), mv[k].1.duplicate());
        }
        proof {
            assert(mvv.take(n as int) =~= mvv);
        }
        sorted
    }

    /// The flattened listing: every name of the merged view with its
    /// winning template, sorted by name for stable display.
    pub fn list_commands(&self) -> (r: Vec<(String, String)>)
        requires
            self.wf(),
        ensures
            forall|i: int, j: int|
                0 <= i < j < r@.len() ==> lex_lt((#[trigger] r@[i]).0@, (#[trigger] r@[j]).0@),
            forall|i: int|
                0 <= i < r@.len() ==> self.merged().contains_key((#[trigger] r@[i]).0@)
                    && self.merged()[r@[i].0@].0 == r@[i].1@,
            forall|k: Seq<char>|
                #[trigger] self.merged().contains_key(k) ==> exists|i: int|
                    0 <= i < r@.len() && r@[i].0@ == k,
    {
        let mv = self.merged_vec();
        let sorted = Self::sort_pairs(mv);
        let ghost sv = entry_pairs_view(sorted@);
        proof {
            assert(distinct_keys(sv)) by {
                assert forall|x: int, y: int| 0 <= x < y < sv.len() implies (#[trigger] sv[x]).0
                    != (#[trigger] sv[y]).0 by {
                    crate::strings::lemma_lex_irrefl(sv[x].0);
                }
            }
            lemma_assoc_map_dom(sv);
            lemma_assoc_map_at(sv);
        }
        let mut r: Vec<(String, String)> = Vec::new();
        let ns = sorted.len();
        for k in 0..ns
            invariant
                ns == sorted@.len(),
                sv == entry_pairs_view(sorted@),
                r@.len() == k,
                forall|a: int|
                    0 <= a < k ==> (#[trigger] r@[a]).0@ == sv[a].0 && r@[a].1@ == sv[a].1.0,
        {
            let name = sorted[k].0.clone();
            let cmd = sorted[k].1.command_str().to_owned();
            r.push((name, cmd));
            proof {
                assert(sv[k as int] == (sorted@[k as int].0@, sorted@[k as int].1@));
            }
        }
        proof {
            assert forall|k: Seq<char>| #[trigger]
                self.merged().contains_key(k) implies exists|i: int|
                0 <= i < r@.len() && r@[i].0@ == k by {
                let a = choose|a: int| 0 <= a < sv.len() && sv[a].0 == k;
                assert(r@[a].0@ == k);
            }
        }
        r
    }

    /// The set of merged names the query hits.
    pub open spec fn hit_keys(&self, query: Seq<char>) -> Set<Seq<char>> {
        Set::new(
            |k: Seq<char>| self.merged().contains_key(k) && search_hit(query, k, self.merged()[k]),
        )
    }

    /// Case-insensitive search over the merged view: a query hits when it
    /// occurs in the lowercase name, template or description, and an empty
    /// query hits everything.  Results are sorted by name.
    pub fn search_commands(&self, query: &str) -> (r: Vec<CommandSearchResult>)
        requires
            self.wf(),
        ensures
            forall|i: int, j: int|
                0 <= i < j < r@.len() ==> lex_lt(
                    (#[trigger] r@[i]).name@,
                    (#[trigger] r@[j]).name@,
                ),
            forall|i: int|
                0 <= i < r@.len() ==> self.merged().contains_key((#[trigger] r@[i]).name@)
                    && self.merged()[r@[i].name@].0 == r@[i].command@
                    && self.merged()[r@[i].name@].1 == opt_str_view(r@[i].description)
                    && search_hit(query@, r@[i].name@, self.merged()[r@[i].name@]),
            forall|k: Seq<char>|
                #[trigger] self.merged().contains_key(k) && search_hit(query@, k, self.merged()[k])
                    ==> exists|i: int| 0 <= i < r@.len() && r@[i].name@ == k,
    {
        let mv = self.merged_vec();
        let ghost mvv = entry_pairs_view(mv@);
        let ghost hits = self.hit_keys(query@);
        proof {
            lemma_assoc_map_dom(mvv);
            lemma_assoc_map_at(mvv);
        }
        let ql = crate::strings::lowercase(query);
        let qlow = crate::strings::str_to_chars(ql.as_str());
        let mut kept: Vec<(String, CommandEntry)> = Vec::new();
        let n = mv.len();
        proof {
            assert(entry_pairs_view(kept@) =~= Seq::<
                (Seq<char>, (Seq<char>, Option<Seq<char>>)),
            >::empty());
            assert(assoc_map(entry_pairs_view(kept@)) =~= assoc_map(mvv.take(0)).restrict(hits));
        }
        for k in 0..n
            invariant
                self.wf(),
                n == mv@.len(),
                mvv == entry_pairs_view(mv@),
                distinct_keys(mvv),
                assoc_map(mvv) == self.merged(),
                hits == self.hit_keys(query@),
                qlow@ == crate::strings::lower_of(query@),
                assoc_map(entry_pairs_view(kept@)) == assoc_map(mvv.take(k as int)).restrict(hits),
                distinct_keys(entry_pairs_view(kept@)),
        {
            let ghost kv0 = entry_pairs_view(kept@);
            let nl = crate::strings::lowercase(mv[k].0.as_str());
            let nlow = crate::strings::str_to_chars(nl.as_str());
            let cl = crate::strings::lowercase(mv[k].1.command_str());
            let clow = crate::strings::str_to_chars(cl.as_str());
            let mut hit = qlow.len() == 0 || crate::strings::vec_contains_seq(&nlow, &qlow)
                || crate::strings::vec_contains_seq(&clow, &qlow);
            if !hit {
                match mv[k].1.description() {
                    Some(d) => {
                        let dl = crate::strings::lowercase(d);
                        let dlow = crate::strings::str_to_chars(dl.as_str());
                        hit = crate::strings::vec_contains_seq(&dlow, &qlow);
                    },
                    None => {},
                }
            }
            proof {
                lemma_assoc_map_dom(mvv.take(k as int));
                lemma_assoc_map_dom(mvv);
                lemma_assoc_map_at(mvv);
                assert(mvv[k as int] == (mv@[k as int].0@, mv@[k as int].1@));
                assert(hit == search_hit(query@, mvv[k as int].0, mvv[k as int].1));
                assert(self.merged()[mvv[k as int].0] == mvv[k as int].1);
                assert(hit == hits.contains(mvv[k as int].0));
                // the key is fresh for the processed prefix
                assert forall|j: int| 0 <= j < k implies (#[trigger] mvv.take(k as int)[j]).0
                    != mvv[k as int].0 by {
                    assert(mvv[j].0 != mvv[k as int].0);
                }
                assert(mvv.take(k + 1) =~= mvv.take(k as int).push(mvv[k as int]));
                lemma_assoc_map_push(mvv.take(k as int), mvv[k as int].0, mvv[k as int].1);
            }
            if hit {
                kept.push((mv[k].0.clone(), mv[k].1.duplicate()));
                proof {
                    assert(entry_pairs_view(kept@) =~= kv0.push(mvv[k as int]));
                    lemma_assoc_map_push(kv0, mvv[k as int].0, mvv[k as int].1);
                    assert(assoc_map(entry_pairs_view(kept@)) =~= assoc_map(
                        mvv.take(k + 1),
                    ).restrict(hits));
                    assert(distinct_keys(entry_pairs_view(kept@))) by {
                        lemma_assoc_map_dom(kv0);
                        assert forall|a: int, b: int|
                            0 <= a < b < entry_pairs_view(kept@).len() implies (
                        #[trigger] entry_pairs_view(kept@)[a]).0 != (
                        #[trigger] entry_pairs_view(kept@)[b]).0 by {
                            if b == kv0.len() {
                                if entry_pairs_view(kept@)[a].0 == mvv[k as int].0 {
                                    assert(kv0[a] == entry_pairs_view(kept@)[a]);
                                    assert(assoc_map(kv0).contains_key(mvv[k as int].0));
                                    assert(assoc_map(mvv.take(k as int)).restrict(
                                        hits,
                                    ).contains_key(mvv[k as int].0));
                                    assert(assoc_map(mvv.take(k as int)).contains_key(
                                        mvv[k as int].0,
                                    ));
                                    let j = choose|j: int|
                                        0 <= j < mvv.take(k as int).len() && mvv.take(
                                            k as int,
                                        )[j].0 == mvv[k as int].0;
                                    assert(mvv[j].0 == mvv[k as int].0);
                                }
                            } else {
                                assert(kv0[a] == entry_pairs_view(kept@)[a]);
                                assert(kv0[b] == entry_pairs_view(kept@)[b]);
                            }
                        }
                    }
                }
            } else {
                proof {
                    assert(!hits.contains(mvv[k as int].0));
                    lemma_assoc_map_dom(mvv.take(k + 1));
                    assert(assoc_map(entry_pairs_view(kept@)) =~= assoc_map(
                        mvv.take(k + 1),
                    ).restrict(hits));
                }
            }
        }
        proof {
            assert(mvv.take(n as int) =~= mvv);
        }
        let ghost keptm = assoc_map(entry_pairs_view(kept@));
        let sorted = Self::sort_pairs(kept);
        let ghost sv = entry_pairs_view(sorted@);
        proof {
            assert(distinct_keys(sv)) by {
                assert forall|x: int, y: int| 0 <= x < y < sv.len() implies (#[trigger] sv[x]).0
                    != (#[trigger] sv[y]).0 by {
                    crate::strings::lemma_lex_irrefl(sv[x].0);
                }
            }
            lemma_assoc_map_dom(sv);
            lemma_assoc_map_at(sv);
        }
        let mut r: Vec<CommandSearchResult> = Vec::new();
        let ns = sorted.len();
        for k in 0..ns
            invariant
                ns == sorted@.len(),
                sv == entry_pairs_view(sorted@),
                r@.len() == k,
                forall|a: int|
                    0 <= a < k ==> (#[trigger] r@[a]).name@ == sv[a].0 && r@[a].command@
                        == sv[a].1.0 && opt_str_view(r@[a].description) == sv[a].1.1,
        {
            let res = CommandSearchResult {
                name: sorted[k].0.clone(),
                command: sorted[k].1.command_str().to_owned(),
                description: match sorted[k].1.description() {
                    Some(d) => Some(d.to_owned()),
                    None => None,
                },
            };
            r.push(res);
            proof {
                assert(sv[k as int] == (sorted@[k as int].0@, sorted@[k as int].1@));
            }
        }
        proof {
            assert forall|i: int|
                0 <= i < r@.len() implies self.merged().contains_key((#[trigger] r@[i]).name@)
                && self.merged()[r@[i].name@].0 == r@[i].command@
                && self.merged()[r@[i].name@].1 == opt_str_view(r@[i].description)
                && search_hit(query@, r@[i].name@, self.merged()[r@[i].name@]) by {
                assert(assoc_map(sv).contains_key(sv[i].0) && assoc_map(sv)[sv[i].0] == sv[i].1);
                assert(keptm.contains_key(sv[i].0));
                assert(hits.contains(sv[i].0));
                assert(self.merged()[sv[i].0] == keptm[sv[i].0]);
            }
            assert forall|k: Seq<char>|
                #[trigger] self.merged().contains_key(k) && search_hit(
                query@,
                k,
                self.merged()[k],
            ) implies exists|i: int| 0 <= i < r@.len() && r@[i].name@ == k by {
                assert(hits.contains(k));
                assert(keptm.contains_key(k));
                assert(assoc_map(sv).contains_key(k));
                let a = choose|a: int| 0 <= a < sv.len() && sv[a].0 == k;
                assert(r@[a].name@ == k);
            }
        }
        r
    }
}

/// The candidate import name for one counter value: the base name itself,
/// then the base with `_1`, `_2`, ... appended.
pub open spec fn cand_name(base: Seq<char>, c: int) -> Seq<char> {
    if c <= 0 {
        base
    } else {
        base + seq!['_'] + crate::strings::dec_str(c as nat)
    }
}

/// Distinct counters give distinct candidate names.
proof fn lemma_cand_name_injective(base: Seq<char>, c1: int, c2: int)
    requires
        0 <= c1,
        0 <= c2,
        cand_name(base, c1) == cand_name(base, c2),
    ensures
        c1 == c2,
{
    crate::strings::lemma_dec_str_len(c1 as nat);
    crate::strings::lemma_dec_str_len(c2 as nat);
    if c1 > 0 && c2 > 0 {
        let s1 = cand_name(base, c1);
        let s2 = cand_name(base, c2);
        assert(crate::strings::dec_str(c1 as nat) =~= s1.subrange(
            base.len() as int + 1,
            s1.len() as int,
        ));
        assert(crate::strings::dec_str(c2 as nat) =~= s2.subrange(
            base.len() as int + 1,
            s2.len() as int,
        ));
        crate::strings::lemma_dec_str_injective(c1 as nat, c2 as nat);
    }
}

/// The remote-origin tag of a registry, as plain values.
pub open spec fn origin_view(c: Config) -> Option<(Seq<char>, ImportType)> {
    match c.origin {
        Some(o) => Some((o.repo@, o.import_type)),
        None => None,
    }
}

/// The name/origin pairs of a vector, as plain values.
pub open spec fn origin_pairs_view(v: Seq<(String, ConfigOrigin)>) -> Seq<
    (Seq<char>, (Seq<char>, ImportType)),
> {
    Seq::new(v.len(), |i: int| (v[i].0@, (v[i].1.repo@, v[i].1.import_type)))
}

/// Every element of a filtered sequence stands somewhere in the original.
proof fn lemma_filter_subset<T>(s: Seq<T>, pred: spec_fn(T) -> bool)
    ensures
        forall|i: int|
            0 <= i < s.filter(pred).len() ==> exists|m: int|
                0 <= m < s.len() && s[m] == #[trigger] s.filter(pred)[i],
    decreases s.len(),
{
    reveal(Seq::filter);
    if s.len() > 0 {
        let d = s.drop_last();
        lemma_filter_subset(d, pred);
        assert forall|i: int|
            0 <= i < s.filter(pred).len() implies exists|m: int|
            0 <= m < s.len() && s[m] == #[trigger] s.filter(pred)[i] by {
            if pred(s.last()) && i == s.filter(pred).len() - 1 {
                assert(s[s.len() - 1] == s.filter(pred)[i]);
            } else {
                assert(s.filter(pred)[i] == d.filter(pred)[i]);
                let m = choose|m: int| 0 <= m < d.len() && d[m] == d.filter(pred)[i];
                assert(s[m] == s.filter(pred)[i]);
            }
        }
    }
}

/// A pairwise property of a sequence holds of any filtered subsequence.
proof fn lemma_filter_pairwise<T>(s: Seq<T>, pred: spec_fn(T) -> bool, p: spec_fn(T, T) -> bool)
    requires
        forall|i: int, j: int| 0 <= i < j < s.len() ==> p(#[trigger] s[i], #[trigger] s[j]),
    ensures
        forall|i: int, j: int|
            0 <= i < j < s.filter(pred).len() ==> p(
                #[trigger] s.filter(pred)[i],
                #[trigger] s.filter(pred)[j],
            ),
    decreases s.len(),
{
    reveal(Seq::filter);
    if s.len() > 0 {
        let d = s.drop_last();
        assert forall|i: int, j: int|
            0 <= i < j < d.len() implies p(#[trigger] d[i], #[trigger] d[j]) by {
            assert(p(s[i], s[j]));
        }
        lemma_filter_pairwise(d, pred, p);
        lemma_filter_subset(d, pred);
        if pred(s.last()) {
            assert forall|i: int, j: int|
                0 <= i < j < s.filter(pred).len() implies p(
                #[trigger] s.filter(pred)[i],
                #[trigger] s.filter(pred)[j],
            ) by {
                if j < s.filter(pred).len() - 1 {
                    assert(s.filter(pred)[i] == d.filter(pred)[i]);
                    assert(s.filter(pred)[j] == d.filter(pred)[j]);
                } else {
                    assert(s.filter(pred)[i] == d.filter(pred)[i]);
                    let m = choose|m: int| 0 <= m < d.len() && d[m] == d.filter(pred)[i];
                    assert(s[m] == s.filter(pred)[i]);
                    assert(p(s[m], s[s.len() - 1]));
                }
            }
        } else {
            assert forall|i: int, j: int|
                0 <= i < j < s.filter(pred).len() implies p(
                #[trigger] s.filter(pred)[i],
                #[trigger] s.filter(pred)[j],
            ) by {
                assert(s.filter(pred)[i] == d.filter(pred)[i]);
                assert(s.filter(pred)[j] == d.filter(pred)[j]);
            }
        }
    }
}

impl ConfigManager {
    /// A secondary source of this name exists.
    pub open spec fn has_source(&self, name: Seq<char>) -> bool {
        assoc_find(self.sources(), name) is Some
    }

    /// Whether a secondary source of this name exists.
    fn source_exists(&self, name: &str) -> (r: bool)
        ensures
            r == self.has_source(name@),
    {
        for i in 0..self.imported_configs.len()
            invariant
                forall|j: int| 0 <= j < i ==> (#[trigger] self.sources()[j]).0 != name@,
        {
            if str_eq(self.imported_configs[i].0.as_str(), name) {
                proof {
                    lemma_assoc_find_first(self.sources(), i as int);
                }
                return true;
            }
        }
        proof {
            lemma_assoc_find_absent(self.sources(), name@);
        }
        false
    }

    /// Inserts a fresh secondary source at its sorted position.
    fn insert_source(&mut self, name: String, config: Config)
        requires
            old(self).wf(),
            config.wf(),
            !old(self).has_source(name@),
            name@ != "main"@,
        ensures
            final(self).wf(),
            final(self).main_config == old(self).main_config,
            final(self).sources().len() == old(self).sources().len() + 1,
            assoc_find(final(self).sources(), name@) == Some(config),
            forall|k: Seq<char>|
                k != name@ ==> assoc_find(final(self).sources(), k) == assoc_find(
                    old(self).sources(),
                    k,
                ),
    {
        let ghost ov = old(self).sources();
        proof {
            lemma_assoc_find_none_no_index(ov, name@);
        }
        let n = self.imported_configs.len();
        let mut p: usize = 0;
        while p < n && !str_lex_lt(name.as_str(), self.imported_configs[p].0.as_str())
            invariant
                n == self.imported_configs@.len(),
                self.imported_configs@ == old(self).imported_configs@,
                ov == self.sources(),
                p <= n,
                forall|j: int| 0 <= j < p ==> !lex_lt(name@, (#[trigger] ov[j]).0),
            decreases n - p,
        {
            proof {
                assert(ov[p as int].0 == self.imported_configs@[p as int].0@);
            }
            p = p + 1;
        }
        proof {
            assert forall|j: int| 0 <= j < p implies lex_lt((#[trigger] ov[j]).0, name@) by {
                lemma_lex_connex(name@, ov[j].0);
            }
            if p < n {
                assert(ov[p as int].0 == self.imported_configs@[p as int].0@);
                assert(lex_lt(name@, ov[p as int].0));
            }
        }
        self.imported_configs.insert(p, (name, config));
        proof {
            let nv = self.sources();
            assert(nv =~= ov.insert(p as int, (name@, config)));
            assert forall|a: int, b: int|
                0 <= a < b < nv.len() implies lex_lt((#[trigger] nv[a]).0, (#[trigger] nv[b]).0) by {
                if a < p && b < p {
                    assert(nv[a] == ov[a] && nv[b] == ov[b]);
                } else if a < p && b == p {
                    assert(nv[a] == ov[a]);
                } else if a < p && b > p {
                    assert(nv[a] == ov[a] && nv[b] == ov[b - 1]);
                    if a == b - 1 {
                        assert(lex_lt(ov[a].0, name@));
                        lemma_lex_connex(name@, ov[a].0);
                    }
                } else if a == p && b > p {
                    assert(nv[b] == ov[b - 1]);
                    assert(lex_lt(name@, ov[b - 1].0)) by {
                        if b - 1 > p {
                            assert(lex_lt(name@, ov[p as int].0));
                            assert(lex_lt(ov[p as int].0, ov[b - 1].0));
                            lemma_lex_trans(name@, ov[p as int].0, ov[b - 1].0);
                        }
                    }
                } else {
                    assert(a > p && b > p);
                    assert(nv[a] == ov[a - 1] && nv[b] == ov[b - 1]);
                }
            }
            assert forall|i: int| 0 <= i < nv.len() implies (#[trigger] nv[i]).1.wf() by {
                if i < p {
                    assert(nv[i] == ov[i]);
                } else if i > p {
                    assert(nv[i] == ov[i - 1]);
                }
            }
            assert forall|i: int| 0 <= i < nv.len() implies (#[trigger] nv[i]).0 != "main"@ by {
                if i < p {
                    assert(nv[i] == ov[i]);
                } else if i > p {
                    assert(nv[i] == ov[i - 1]);
                }
            }
            // lookups: the new name finds the new config, others are unchanged
            assert forall|j: int| 0 <= j < p implies (#[trigger] nv[j]).0 != name@ by {
                assert(nv[j] == ov[j]);
                crate::strings::lemma_lex_irrefl(name@);
            }
            lemma_assoc_find_first_any(nv, p as int);
            assert forall|k: Seq<char>|
                k != name@ implies assoc_find(nv, k) == assoc_find(ov, k) by {
                lemma_assoc_find_insert_other(ov, p as int, (name@, config), k);
            }
        }
    }

    /// The import name candidate for one counter value.
    fn candidate_string(base: &str, c: usize) -> (r: String)
        ensures
            r@ == cand_name(base@, c as int),
    {
        if c == 0 {
            base.to_owned()
        } else {
            let suffix = crate::strings::make_placeholder('_', c);
            let mut name_v = crate::strings::str_to_chars(base);
            crate::strings::push_all(&mut name_v, &suffix);
            let r = crate::strings::chars_to_string(&name_v);
            proof {
                assert(r@ == base@ + (seq!['_'] + crate::strings::dec_str(c as nat)));
                assert(r@ =~= cand_name(base@, c as int));
            }
            r
        }
    }

    /// The first free import name derived from `base`: `base` itself,
    /// else `base_1`, `base_2`, and so on.  Pure: nothing is installed.
    pub fn next_import_name(&self, base: &str) -> (r: String)
        ensures
            !self.has_source(r@),
            // the name is the first free candidate
            exists|c: int|
                0 <= c && r@ == cand_name(base@, c) && forall|d: int|
                    0 <= d < c ==> self.has_source(#[trigger] cand_name(base@, d)),
    {
        let l = self.imported_configs.len();
        let mut c: usize = 0;
        while c < l
            invariant
                l == self.imported_configs@.len(),
                c <= l,
                forall|d: int| 0 <= d < c ==> self.has_source(#[trigger] cand_name(base@, d)),
            decreases l - c,
        {
            let name = Self::candidate_string(base, c);
            if !self.source_exists(name.as_str()) {
                return name;
            }
            c = c + 1;
        }
        let name = Self::candidate_string(base, l);
        if !self.source_exists(name.as_str()) {
            return name;
        }
        // all candidates taken: impossible, there are more candidates than
        // sources
        proof {
            assert forall|d: int| 0 <= d <= l implies self.has_source(
                #[trigger] cand_name(base@, d),
            ) by {}
            let cands = Seq::new((l + 1) as nat, |d: int| cand_name(base@, d));
            let names = Seq::new(l as nat, |i: int| self.sources()[i].0);
            assert(cands.no_duplicates()) by {
                assert forall|a: int, b: int|
                    0 <= a < cands.len() && 0 <= b < cands.len() && a != b implies cands[a]
                    != cands[b] by {
                    if cands[a] == cands[b] {
                        lemma_cand_name_injective(base@, a, b);
                    }
                }
            }
            assert forall|d: int| 0 <= d < cands.len() implies names.to_set().contains(
                #[trigger] cands[d],
            ) by {
                assert(self.has_source(cand_name(base@, d)));
                lemma_assoc_find_some_index(self.sources(), cands[d]);
                let i = choose|i: int|
                    0 <= i < self.sources().len() && self.sources()[i].0 == cands[d];
                assert(names[i] == cands[d]);
                assert(names.contains(cands[d]));
            }
            assert(cands.to_set().subset_of(names.to_set())) by {
                assert forall|x: Seq<char>| cands.to_set().contains(x) implies names.to_set()
                    .contains(x) by {
                    assert(cands.contains(x));
                    let d = choose|d: int| 0 <= d < cands.len() && cands[d] == x;
                    assert(names.to_set().contains(cands[d]));
                }
            }
            cands.unique_seq_to_set();
            names.lemma_cardinality_of_set();
            vstd::seq_lib::seq_to_set_is_finite(names);
            vstd::set_lib::lemma_len_subset(cands.to_set(), names.to_set());
            assert(false);
        }
        base.to_owned()
    }

    /// Installs an imported registry under the first free name derived from
    /// `base` (see `next_import_name`).  Returns the name chosen.  The
    /// primary registry is never touched.
    pub fn insert_imported_config(&mut self, base: &str, config: Config) -> (r: String)
        requires
            old(self).wf(),
            config.wf(),
            base@ != "main"@,
        ensures
            final(self).wf(),
            final(self).main_config == old(self).main_config,
            !old(self).has_source(r@),
            assoc_find(final(self).sources(), r@) == Some(config),
            forall|k: Seq<char>|
                k != r@ ==> assoc_find(final(self).sources(), k) == assoc_find(
                    old(self).sources(),
                    k,
                ),
            // the name is the first free candidate
            exists|c: int|
                0 <= c && r@ == cand_name(base@, c) && forall|d: int|
                    0 <= d < c ==> old(self).has_source(#[trigger] cand_name(base@, d)),
    {
        let name = self.next_import_name(base);
        proof {
            let c = choose|c: int|
                0 <= c && name@ == cand_name(base@, c) && forall|d: int|
                    0 <= d < c ==> self.has_source(#[trigger] cand_name(base@, d));
            lemma_cand_ne_main(base@, c);
        }
        self.insert_source(name.clone(), config);
        name
    }

    /// Replaces the named secondary registry wholesale (a sync refresh);
    /// reports whether the source existed.  Nothing else is touched.
    pub fn update_imported_config(&mut self, name: &str, config: Config) -> (r: bool)
        requires
            old(self).wf(),
            config.wf(),
        ensures
            final(self).wf(),
            final(self).main_config == old(self).main_config,
            r == old(self).has_source(name@),
            if r {
                assoc_find(final(self).sources(), name@) == Some(config) && forall|k: Seq<char>|
                    k != name@ ==> assoc_find(final(self).sources(), k) == assoc_find(
                        old(self).sources(),
                        k,
                    )
            } else {
                *final(self) == *old(self)
            },
    {
        let n = self.imported_configs.len();
        for i in 0..n
            invariant
                old(self).wf(),
                *self == *old(self),
                config.wf(),
                n == self.imported_configs@.len(),
                forall|j: int| 0 <= j < i ==> (#[trigger] self.sources()[j]).0 != name@,
        {
            if str_eq(self.imported_configs[i].0.as_str(), name) {
                proof {
                    lemma_assoc_find_first(self.sources(), i as int);
                }
                let slot = &mut self.imported_configs[i];
                slot.1 = config;
                proof {
                    let ov = old(self).sources();
                    let nv = self.sources();
                    assert(nv.len() == ov.len());
                    assert forall|j: int|
                        0 <= j < ov.len() implies (#[trigger] nv[j]).0 == ov[j].0 by {}
                    assert forall|j: int|
                        0 <= j < ov.len() && j != i implies (#[trigger] nv[j]).1 == ov[j].1 by {}
                    lemma_assoc_find_agree(nv, ov, i as int);
                    lemma_assoc_find_first(nv, i as int);
                    assert forall|a: int, b: int|
                        0 <= a < b < nv.len() implies lex_lt(
                        (#[trigger] nv[a]).0,
                        (#[trigger] nv[b]).0,
                    ) by {
                        assert(lex_lt(ov[a].0, ov[b].0));
                    }
                    assert forall|j: int| 0 <= j < nv.len() implies (#[trigger] nv[j]).1.wf() by {
                        if j != i {
                            assert(nv[j].1 == ov[j].1);
                        }
                    }
                    assert forall|j: int|
                        0 <= j < nv.len() implies (#[trigger] nv[j]).0 != "main"@ by {
                        assert(nv[j].0 == ov[j].0);
                    }
                }
                return true;
            }
        }
        proof {
            lemma_assoc_find_absent(self.sources(), name@);
        }
        false
    }

    /// Removes every secondary source whose name starts with the given
    /// prefix (used when a repository's registries are reloaded wholesale).
    pub fn remove_imported_with_prefix(&mut self, prefix: &str)
        requires
            old(self).wf(),
        ensures
            final(self).wf(),
            final(self).main_config == old(self).main_config,
            final(self).imported_configs@ == old(self).imported_configs@.filter(
                |p: (String, Config)| !crate::strings::contains_at(p.0@, prefix@, 0),
            ),
    {
        let ghost pred = |p: (String, Config)| !crate::strings::contains_at(p.0@, prefix@, 0);
        let ghost ov = old(self).imported_configs@;
        let pv = crate::strings::str_to_chars(prefix);
        let mut i: usize = 0;
        let ghost mut j: int = 0;
        proof {
            reveal(Seq::filter);
            assert(ov.take(0).filter(pred) =~= Seq::<(String, Config)>::empty());
            assert(self.imported_configs@ =~= ov.take(0).filter(pred) + ov.skip(0));
        }
        while i < self.imported_configs.len()
            invariant
                old(self).wf(),
                pv@ == prefix@,
                pred == (|p: (String, Config)| !crate::strings::contains_at(p.0@, prefix@, 0)),
                ov == old(self).imported_configs@,
                self.main_config == old(self).main_config,
                0 <= j <= ov.len(),
                i as int == ov.take(j).filter(pred).len(),
                self.imported_configs@ == ov.take(j).filter(pred) + ov.skip(j),
            decreases ov.len() - j,
        {
            proof {
                reveal(Seq::filter);
                assert(self.imported_configs@[i as int] == ov.skip(j)[0]);
                assert(ov.skip(j)[0] == ov[j]);
                assert(ov.take(j + 1).drop_last() =~= ov.take(j));
                assert(ov.take(j + 1).last() == ov[j]);
            }
            let name_chars = crate::strings::str_to_chars(self.imported_configs[i].0.as_str());
            let starts = pv.len() <= name_chars.len() && crate::strings::match_at(
                &name_chars,
                &pv,
                0,
            );
            proof {
                if crate::strings::contains_at(ov[j].0@, prefix@, 0) {
                    assert(prefix@.len() <= ov[j].0@.len());
                }
                assert(starts == crate::strings::contains_at(ov[j].0@, prefix@, 0));
            }
            if starts {
                self.imported_configs.remove(i);
                proof {
                    assert(self.imported_configs@ =~= ov.take(j + 1).filter(pred) + ov.skip(
                        j + 1,
                    ));
                    j = j + 1;
                }
            } else {
                i = i + 1;
                proof {
                    assert(ov.take(j + 1).filter(pred) =~= ov.take(j).filter(pred).push(ov[j]));
                    assert(self.imported_configs@ =~= ov.take(j + 1).filter(pred) + ov.skip(
                        j + 1,
                    ));
                    j = j + 1;
                }
            }
        }
        proof {
            broadcast use vstd::seq_lib::group_filter_ensures;

            assert(j == ov.len()) by {
                if j < ov.len() {
                    assert(ov.skip(j).len() > 0);
                    reveal(Seq::filter);
                }
            }
            assert(ov.take(j) =~= ov);
            assert(ov.skip(j) =~= Seq::<(String, Config)>::empty());
            assert(self.imported_configs@ =~= ov.filter(pred));
            // the filtered source list keeps well-formedness
            let nv = self.sources();
            let fv = ov.filter(pred);
            lemma_filter_subset(ov, pred);
            assert forall|idx: int| 0 <= idx < nv.len() implies (#[trigger] nv[idx]).1.wf()
                && nv[idx].0 != "main"@ by {
                let m = choose|m: int| 0 <= m < ov.len() && ov[m] == fv[idx];
                assert(old(self).sources()[m] == (ov[m].0@, ov[m].1));
                assert(nv[idx] == (fv[idx].0@, fv[idx].1));
            }
            assert forall|a: int, b: int|
                0 <= a < b < ov.len() implies lex_lt((#[trigger] ov[a]).0@, (#[trigger] ov[b]).0@) by {
                assert(old(self).sources()[a].0 == ov[a].0@);
                assert(old(self).sources()[b].0 == ov[b].0@);
            }
            lemma_filter_pairwise(
                ov,
                pred,
                |a: (String, Config), b: (String, Config)| lex_lt(a.0@, b.0@),
            );
            assert forall|a: int, b: int|
                0 <= a < b < nv.len() implies lex_lt((#[trigger] nv[a]).0, (#[trigger] nv[b]).0) by {
                assert(lex_lt(fv[a].0@, fv[b].0@));
            }
        }
    }

    /// The secondary sources that carry a remote origin, in stored order:
    /// what a sync operation must refresh.
    pub fn syncable_configs(&self) -> (r: Vec<(String, ConfigOrigin)>)
        requires
            self.wf(),
        ensures
            origin_pairs_view(r@) == self.sources().filter(
                |p: (Seq<char>, Config)| origin_view(p.1) is Some,
            ).map_values(|p: (Seq<char>, Config)| (p.0, origin_view(p.1)->0)),
    {
        let ghost pred = |p: (Seq<char>, Config)| origin_view(p.1) is Some;
        let ghost f = |p: (Seq<char>, Config)| (p.0, origin_view(p.1)->0);
        let mut r: Vec<(String, ConfigOrigin)> = Vec::new();
        let n = self.imported_configs.len();
        proof {
            reveal(Seq::filter);
            assert(origin_pairs_view(r@) =~= self.sources().take(0).filter(pred).map_values(f));
        }
        for i in 0..n
            invariant
                n == self.imported_configs@.len(),
                pred == (|p: (Seq<char>, Config)| origin_view(p.1) is Some),
                f == (|p: (Seq<char>, Config)| (p.0, origin_view(p.1)->0)),
                origin_pairs_view(r@) == self.sources().take(i as int).filter(pred).map_values(f),
        {
            let ghost sv = self.sources();
            proof {
                reveal(Seq::filter);
                assert(sv.take(i + 1).drop_last() =~= sv.take(i as int));
                assert(sv.take(i + 1).last() == sv[i as int]);
                assert(sv[i as int] == (
                    self.imported_configs@[i as int].0@,
                    self.imported_configs@[i as int].1,
                ));
            }
            match &self.imported_configs[i].1.origin {
                Some(o) => {
                    let pair = (self.imported_configs[i].0.clone(), o.duplicate());
                    let ghost r0 = r@;
                    r.push(pair);
                    proof {
                        assert(origin_pairs_view(r@) =~= origin_pairs_view(r0).push(
                            (sv[i as int].0, origin_view(sv[i as int].1)->0),
                        ));
                        assert(sv.take(i + 1).filter(pred) =~= sv.take(i as int).filter(
                            pred,
                        ).push(sv[i as int]));
                        assert(sv.take(i + 1).filter(pred).map_values(f) =~= sv.take(
                            i as int,
                        ).filter(pred).map_values(f).push(f(sv[i as int])));
                        assert(origin_pairs_view(r@) =~= sv.take(i + 1).filter(pred).map_values(
                            f,
                        ));
                    }
                },
                None => {
                    proof {
                        assert(!pred(sv[i as int]));
                        assert(sv.take(i + 1).filter(pred) =~= sv.take(i as int).filter(pred));
                    }
                },
            }
        }
        proof {
            assert(self.sources().take(n as int) =~= self.sources());
        }
        r
    }
}

/// The candidate name never collides with the reserved source name `main`
/// when the base name differs from it.
proof fn lemma_cand_ne_main(base: Seq<char>, c: int)
    requires
        0 <= c,
        base != "main"@,
    ensures
        cand_name(base, c) != "main"@,
{
    if c > 0 && cand_name(base, c) == "main"@ {
        crate::strings::lemma_dec_str_len(c as nat);
        reveal_strlit("main");
        assert(cand_name(base, c).len() == base.len() + 1 + crate::strings::dec_str(
            c as nat,
        ).len());
        if base.len() >= 4 {
            assert(cand_name(base, c).len() > 4);
        } else {
            // shorter bases give names whose fifth-from-last region cannot
            // match; settle it by length arithmetic
            assert(cand_name(base, c).len() == 4);
            assert(base.len() + crate::strings::dec_str(c as nat).len() == 3);
            // the underscore sits at position base.len(), but "main" has no
            // underscore
            assert(cand_name(base, c)[base.len() as int] == '_');
            assert("main"@[0] == 'm' && "main"@[1] == 'a' && "main"@[2] == 'i' && "main"@[3]
                == 'n');
        }
    }
}

/// Helper: first-match lookup succeeds at an index whose earlier keys all
/// differ from its key.
proof fn lemma_assoc_find_first_any(ps: Seq<(Seq<char>, Config)>, i: int)
    requires
        0 <= i < ps.len(),
        forall|j: int| 0 <= j < i ==> (#[trigger] ps[j]).0 != ps[i].0,
    ensures
        assoc_find(ps, ps[i].0) == Some(ps[i].1),
{
    lemma_assoc_find_first(ps, i);
}

/// Helper: a failed lookup means no pair holds the key.
proof fn lemma_assoc_find_none_no_index(ps: Seq<(Seq<char>, Config)>, k: Seq<char>)
    requires
        assoc_find(ps, k) is None,
    ensures
        forall|i: int| 0 <= i < ps.len() ==> (#[trigger] ps[i]).0 != k,
    decreases ps.len(),
{
    if ps.len() > 0 {
        assert(ps[0].0 != k);
        lemma_assoc_find_none_no_index(ps.skip(1), k);
        assert forall|i: int| 0 <= i < ps.len() implies (#[trigger] ps[i]).0 != k by {
            if i > 0 {
                assert(ps.skip(1)[i - 1].0 != k);
            }
        }
    }
}

/// Helper: a successful lookup names some index.
proof fn lemma_assoc_find_some_index(ps: Seq<(Seq<char>, Config)>, k: Seq<char>)
    requires
        assoc_find(ps, k) is Some,
    ensures
        exists|i: int| 0 <= i < ps.len() && (#[trigger] ps[i]).0 == k,
    decreases ps.len(),
{
    if ps.len() > 0 {
        if ps[0].0 == k {
            assert(ps[0].0 == k);
        } else {
            lemma_assoc_find_some_index(ps.skip(1), k);
            let i = choose|i: int| 0 <= i < ps.skip(1).len() && ps.skip(1)[i].0 == k;
            assert(ps[i + 1].0 == k);
        }
    }
}

/// Helper: inserting a pair leaves lookups of every other key unchanged.
proof fn lemma_assoc_find_insert_other(
    ps: Seq<(Seq<char>, Config)>,
    p: int,
    pair: (Seq<char>, Config),
    k: Seq<char>,
)
    requires
        0 <= p <= ps.len(),
        k != pair.0,
    ensures
        assoc_find(ps.insert(p, pair), k) == assoc_find(ps, k),
    decreases ps.len(),
{
    let q = ps.insert(p, pair);
    if p == 0 {
        assert(q[0] == pair);
        assert(q.skip(1) =~= ps);
    } else {
        assert(q[0] == ps[0]);
        if ps[0].0 != k {
            assert(q.skip(1) =~= ps.skip(1).insert(p - 1, pair));
            lemma_assoc_find_insert_other(ps.skip(1), p - 1, pair, k);
        }
    }
}

} // verus!
