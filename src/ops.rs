//! The older JSON-backed command store, kept so that its contents can be
//! read, searched, edited and imported into the current store.
//!
//! Tag and group collections are vectors read as sets: what they hold is the
//! set of their strings, whatever the order. The store keeps each of them
//! free of repeats.

use vstd::prelude::*;
use vstd::string::StringExecFns;
use crate::text::{contains_seq, contains_str, copy_opt, opt_str, opt_string};

verus! {

/// The strings held by a vector, as a set.
pub open spec fn string_set(v: Seq<String>) -> Set<Seq<char>> {
    Set::new(|x: Seq<char>| exists|i: int| 0 <= i < v.len() && #[trigger] v[i]@ == x)
}

/// Why the legacy store refused an operation.
#[derive(Debug, Clone, Copy, PartialEq, Eq, Structural)]
pub enum LegacyError {
    /// No command with this id is stored.
    NotFound,
    /// A command with this id is already stored.
    DuplicateId,
}

/// One command of the legacy store.
pub struct Command {
    pub id: String,
    pub command: String,
    pub working_directory: String,
    pub group: String,
    pub tags: Vec<String>,
    pub description: Option<String>,
    pub use_count: u32,
}

/// A legacy command as plain values.
pub struct CommandView {
    pub id: Seq<char>,
    pub command: Seq<char>,
    pub working_directory: Seq<char>,
    pub group: Seq<char>,
    pub tags: Set<Seq<char>>,
    pub description: Option<Seq<char>>,
    pub use_count: u32,
}

impl View for Command {
    type V = CommandView;

    open spec fn view(&self) -> CommandView {
        CommandView {
            id: self.id@,
            command: self.command@,
            working_directory: self.working_directory@,
            group: self.group@,
            tags: string_set(self.tags@),
            description: opt_string(self.description),
            use_count: self.use_count,
        }
    }
}

/// Changes to one legacy command; a `None` field leaves that field alone.
pub struct CommandUpdates {
    pub command: Option<String>,
    pub group: Option<String>,
    pub tags: Option<Vec<String>>,
    pub description: Option<String>,
}

/// A command after `updates` are applied to it.
pub open spec fn updated(c: CommandView, updates: CommandUpdates) -> CommandView {
    CommandView {
        command: match updates.command {
            Some(s) => s@,
            None => c.command,
        },
        group: match updates.group {
            Some(s) => s@,
            None => c.group,
        },
        tags: match updates.tags {
            Some(t) => string_set(t@),
            None => c.tags,
        },
        description: match updates.description {
            Some(s) => Some(s@),
            None => c.description,
        },
        ..c
    }
}

/// The groups of all commands.
pub open spec fn groups_of(cmds: Seq<CommandView>) -> Set<Seq<char>> {
    Set::new(|g: Seq<char>| exists|i: int| 0 <= i < cmds.len() && #[trigger] cmds[i].group == g)
}

/// The tags of all commands.
pub open spec fn tags_of(cmds: Seq<CommandView>) -> Set<Seq<char>> {
    Set::new(
        |t: Seq<char>| exists|i: int| 0 <= i < cmds.len() && #[trigger] cmds[i].tags.contains(t),
    )
}

/// The two sets share an element.
pub open spec fn shares_one(a: Set<Seq<char>>, b: Set<Seq<char>>) -> bool {
    exists|x: Seq<char>| a.contains(x) && b.contains(x)
}

/// Whether `c` passes a search: in `group` if one is given, carrying one of
/// `tags` if they are given, and with `query` in its text or description.
pub open spec fn search_matches(
    c: CommandView,
    query: Seq<char>,
    group: Option<Seq<char>>,
    tags: Option<Set<Seq<char>>>,
) -> bool {
    &&& (group matches Some(g) ==> c.group == g)
    &&& (tags matches Some(t) ==> shares_one(t, c.tags))
    &&& (contains_seq(c.command, query) || (c.description matches Some(d) && contains_seq(
        d,
        query,
    )))
}

/// The tags a search asks for, as a set.
pub open spec fn opt_tags(tags: Option<&Vec<String>>) -> Option<Set<Seq<char>>> {
    match tags {
        Some(t) => Some(string_set(t@)),
        None => None,
    }
}

/// The commands that `search` keeps.
pub open spec fn search_filter(
    query: Seq<char>,
    group: Option<Seq<char>>,
    tags: Option<Set<Seq<char>>>,
) -> spec_fn(CommandView) -> bool {
    |c: CommandView| search_matches(c, query, group, tags)
}

/// The command with its use count raised by one, saturating at the maximum.
pub open spec fn used_once_more(c: CommandView) -> CommandView {
    CommandView {
        use_count: if c.use_count < u32::MAX {
            (c.use_count + 1) as u32
        } else {
            c.use_count
        },
        ..c
    }
}

/// Whether `c` passes a search.
fn command_matches(c: &Command, query: &str, group: Option<&str>, tags: Option<&Vec<String>>) -> (r:
    bool)
    ensures
        r == search_matches(c@, query@, opt_str(group), opt_tags(tags)),
{
    let group_ok = match group {
        Some(g) => c.group == String::from_str(g),
        None => true,
    };
    assert(group_ok == (opt_str(group) matches Some(g) ==> c@.group == g));
    if !group_ok {
        return false;
    }
    let tags_ok = match tags {
        Some(t) => {
            let mut found = false;
            let mut i: usize = 0;
            while i < t.len()
                invariant
                    i <= t@.len(),
                    found ==> exists|x: Seq<char>|
                        string_set(t@).contains(x) && c@.tags.contains(x),
                    !found ==> forall|k: int| 0 <= k < i ==> !c@.tags.contains(#[trigger] t@[k]@),
                decreases t@.len() - i,
            {
                if holds(&c.tags, &t[i]) {
                    assert(string_set(t@).contains(t@[i as int]@));
                    found = true;
                }
                i += 1;
            }
            if !found {
                assert forall|x: Seq<char>| string_set(t@).contains(x) implies !c@.tags.contains(
                    x,
                ) by {
                    let k = choose|k: int| 0 <= k < t@.len() && #[trigger] t@[k]@ == x;
                }
            }
            assert(found == shares_one(string_set(t@), c@.tags));
            found
        },
        None => true,
    };
    assert(tags_ok == (opt_tags(tags) matches Some(t) ==> shares_one(t, c@.tags)));
    if !tags_ok {
        return false;
    }
    let text_ok = if contains_str(c.command.as_str(), query) {
        true
    } else {
        match &c.description {
            Some(d) => contains_str(d.as_str(), query),
            None => false,
        }
    };
    text_ok
}

/// `i` is the first position of a command with `id`.
pub open spec fn first_with_id(cmds: Seq<CommandView>, id: Seq<char>, i: int) -> bool {
    &&& 0 <= i < cmds.len()
    &&& cmds[i].id == id
    &&& forall|j: int| 0 <= j < i ==> cmds[j].id != id
}

/// The groups of a prefix of `cmds` grow by the next command's group.
proof fn lemma_groups_of_prefix(cmds: Seq<CommandView>, i: int)
    requires
        0 <= i < cmds.len(),
    ensures
        groups_of(cmds.subrange(0, i + 1)) == groups_of(cmds.subrange(0, i)).insert(cmds[i].group),
{
    let prev = cmds.subrange(0, i);
    let next = cmds.subrange(0, i + 1);
    assert(next[i] == cmds[i]);
    assert forall|g: Seq<char>| groups_of(prev).contains(g) implies groups_of(next).contains(g) by {
        let k = choose|k: int| 0 <= k < prev.len() && #[trigger] prev[k].group == g;
        assert(next[k].group == g);
    }
    assert forall|g: Seq<char>| groups_of(next).contains(g) && g != cmds[i].group implies groups_of(
        prev,
    ).contains(g) by {
        let k = choose|k: int| 0 <= k < next.len() && #[trigger] next[k].group == g;
        assert(prev[k].group == g);
    }
    assert(groups_of(next) =~= groups_of(prev).insert(cmds[i].group));
}

/// The tags of a prefix of `cmds` grow by the next command's tags.
proof fn lemma_tags_of_prefix(cmds: Seq<CommandView>, i: int)
    requires
        0 <= i < cmds.len(),
    ensures
        tags_of(cmds.subrange(0, i + 1)) == tags_of(cmds.subrange(0, i)).union(cmds[i].tags),
{
    let prev = cmds.subrange(0, i);
    let next = cmds.subrange(0, i + 1);
    assert(next[i] == cmds[i]);
    assert forall|t: Seq<char>| tags_of(prev).contains(t) implies tags_of(next).contains(t) by {
        let k = choose|k: int| 0 <= k < prev.len() && #[trigger] prev[k].tags.contains(t);
        assert(next[k].tags.contains(t));
    }
    assert forall|t: Seq<char>| tags_of(next).contains(t) && !cmds[i].tags.contains(
        t,
    ) implies tags_of(prev).contains(t) by {
        let k = choose|k: int| 0 <= k < next.len() && #[trigger] next[k].tags.contains(t);
        assert(prev[k].tags.contains(t));
    }
    assert(tags_of(next) =~= tags_of(prev).union(cmds[i].tags));
}

/// Some command carries `id`.
pub open spec fn has_command(cmds: Seq<CommandView>, id: Seq<char>) -> bool {
    exists|i: int| 0 <= i < cmds.len() && cmds[i].id == id
}

/// The legacy store as plain values.
pub struct StoreView {
    pub commands: Seq<CommandView>,
    pub groups: Set<Seq<char>>,
    pub tags: Set<Seq<char>>,
}

/// Whether `v` holds a string equal to `s`.
fn holds(v: &Vec<String>, s: &String) -> (r: bool)
    ensures
        r == string_set(v@).contains(s@),
{
    let mut i: usize = 0;
    while i < v.len()
        invariant
            i <= v@.len(),
            forall|k: int| 0 <= k < i ==> v@[k]@ != s@,
        decreases v@.len() - i,
    {
        if v[i] == *s {
            assert(v@[i as int]@ == s@);
            return true;
        }
        i += 1;
    }
    false
}

/// No string occurs twice in `v`.
pub open spec fn no_repeats(v: Seq<String>) -> bool {
    forall|i: int, j: int| 0 <= i < j < v.len() ==> v[i]@ != v[j]@
}

/// Appending a string adds it to the set that a vector holds.
proof fn lemma_string_set_push(v: Seq<String>, s: String)
    ensures
        string_set(v.push(s)) == string_set(v).insert(s@),
{
    let w = v.push(s);
    assert(w[v.len() as int]@ == s@);
    assert forall|x: Seq<char>| string_set(v).contains(x) implies string_set(w).contains(x) by {
        let k = choose|k: int| 0 <= k < v.len() && #[trigger] v[k]@ == x;
        assert(w[k]@ == x);
    }
    assert forall|x: Seq<char>| string_set(w).contains(x) && x != s@ implies string_set(
        v,
    ).contains(x) by {
        let k = choose|k: int| 0 <= k < w.len() && #[trigger] w[k]@ == x;
        assert(v[k]@ == x);
    }
    assert(string_set(w) =~= string_set(v).insert(s@));
}

/// The set that a prefix of `v` holds grows by the next string.
proof fn lemma_string_set_prefix(v: Seq<String>, i: int)
    requires
        0 <= i < v.len(),
    ensures
        string_set(v.subrange(0, i + 1)) == string_set(v.subrange(0, i)).insert(v[i]@),
{
    assert(v.subrange(0, i + 1) =~= v.subrange(0, i).push(v[i]));
    lemma_string_set_push(v.subrange(0, i), v[i]);
}

/// Adds `s` to the set that `v` holds, without repeating it.
fn add_to_set(v: &mut Vec<String>, s: String)
    ensures
        string_set(final(v)@) == string_set(old(v)@).insert(s@),
        no_repeats(old(v)@) ==> no_repeats(final(v)@),
{
    if holds(v, &s) {
        assert(string_set(v@) =~= string_set(v@).insert(s@));
        return;
    }
    let ghost before = v@;
    v.push(s);
    proof {
        lemma_string_set_push(before, s);
        assert forall|k: int| 0 <= k < before.len() implies before[k]@ != s@ by {
            if before[k]@ == s@ {
                assert(string_set(before).contains(s@));
            }
        }
    }
}

/// Adds the strings of `src` to the set that `dst` holds, without repeats.
fn add_all_to_set(dst: &mut Vec<String>, src: &Vec<String>)
    ensures
        string_set(final(dst)@) == string_set(old(dst)@).union(string_set(src@)),
        no_repeats(old(dst)@) ==> no_repeats(final(dst)@),
{
    let ghost start = string_set(dst@);
    let mut i: usize = 0;
    assert(string_set(src@.subrange(0, 0)) =~= Set::<Seq<char>>::empty());
    assert(start =~= start.union(Set::<Seq<char>>::empty()));
    while i < src.len()
        invariant
            i <= src@.len(),
            string_set(dst@) == start.union(string_set(src@.subrange(0, i as int))),
            no_repeats(old(dst)@) ==> no_repeats(dst@),
        decreases src@.len() - i,
    {
        add_to_set(dst, src[i].clone());
        proof {
            lemma_string_set_prefix(src@, i as int);
            assert(string_set(dst@) =~= start.union(string_set(src@.subrange(0, i + 1))));
        }
        i += 1;
    }
    assert(src@.subrange(0, src@.len() as int) =~= src@);
}

/// The strings of `v`, each once.
fn unique_strings(v: &Vec<String>) -> (r: Vec<String>)
    ensures
        string_set(r@) == string_set(v@),
        no_repeats(r@),
{
    let mut r: Vec<String> = Vec::new();
    add_all_to_set(&mut r, v);
    assert(string_set(Seq::<String>::empty()) =~= Set::<Seq<char>>::empty());
    assert(string_set(r@) =~= string_set(v@));
    r
}

/// A copy of `c` whose tags hold no repeats.
fn normalized(c: &Command) -> (r: Command)
    ensures
        r@ == c@,
        no_repeats(r.tags@),
{
    Command {
        id: c.id.clone(),
        command: c.command.clone(),
        working_directory: c.working_directory.clone(),
        group: c.group.clone(),
        tags: unique_strings(&c.tags),
        description: copy_opt(&c.description),
        use_count: c.use_count,
    }
}

/// Relies on uuid's `Uuid::new_v4` and its `Display`: a random version-4 UUID
/// in hyphenated form, which is 36 characters long.
#[verifier::external_body]
fn fresh_id() -> (r: String)
    ensures
        r@.len() == 36,
{
    uuid::Uuid::new_v4().to_string()
}

/// The legacy store: its commands, and the groups and tags seen so far.
pub struct CommandStore {
    commands: Vec<Command>,
    groups: Vec<String>,
    tags: Vec<String>,
}

impl View for CommandStore {
    type V = StoreView;

    closed spec fn view(&self) -> StoreView {
        StoreView {
            commands: self.commands@.map_values(|c: Command| c@),
            groups: string_set(self.groups@),
            tags: string_set(self.tags@),
        }
    }
}

impl CommandStore {
    /// Neither the groups, nor the tags, nor the tags of any command repeat a
    /// string.
    pub closed spec fn wf(&self) -> bool {
        &&& no_repeats(self.groups@)
        &&& no_repeats(self.tags@)
        &&& forall|i: int| 0 <= i < self.commands@.len() ==> no_repeats(#[trigger] self.commands@[i].tags@)
    }

    /// An empty store.
    pub fn new() -> (r: CommandStore)
        ensures
            r@.commands == Seq::<CommandView>::empty(),
            r@.groups == Set::<Seq<char>>::empty(),
            r@.tags == Set::<Seq<char>>::empty(),
            r.wf(),
    {
        let r = CommandStore { commands: Vec::new(), groups: Vec::new(), tags: Vec::new() };
        assert(r@.commands =~= Seq::empty());
        assert(r@.groups =~= Set::empty());
        assert(r@.tags =~= Set::empty());
        r
    }

    /// A store holding the given parts, as read back from disk; repeated
    /// groups or tags are kept once.
    pub fn from_parts(commands: Vec<Command>, groups: Vec<String>, tags: Vec<String>) -> (r:
        CommandStore)
        ensures
            r@.commands == commands@.map_values(|c: Command| c@),
            r@.groups == string_set(groups@),
            r@.tags == string_set(tags@),
            r.wf(),
    {
        let mut cmds: Vec<Command> = Vec::new();
        let mut i: usize = 0;
        while i < commands.len()
            invariant
                i <= commands@.len(),
                cmds@.len() == i,
                forall|k: int| 0 <= k < i ==> (#[trigger] cmds@[k])@ == commands@[k]@,
                forall|k: int| 0 <= k < i ==> no_repeats(#[trigger] cmds@[k].tags@),
            decreases commands@.len() - i,
        {
            cmds.push(normalized(&commands[i]));
            i += 1;
        }
        let r = CommandStore {
            commands: cmds,
            groups: unique_strings(&groups),
            tags: unique_strings(&tags),
        };
        assert(r@.commands =~= commands@.map_values(|c: Command| c@));
        r
    }

    /// The stored commands, in the order they were added.
    pub fn commands(&self) -> (r: &Vec<Command>)
        ensures
            r@.map_values(|c: Command| c@) == self@.commands,
    {
        &self.commands
    }

    /// The groups seen so far.
    pub fn groups(&self) -> (r: &Vec<String>)
        ensures
            string_set(r@) == self@.groups,
    {
        &self.groups
    }

    /// The tags seen so far.
    pub fn tags(&self) -> (r: &Vec<String>)
        ensures
            string_set(r@) == self@.tags,
    {
        &self.tags
    }

    /// Appends a command under the given id with a use count of one, and
    /// records its group and tags. Fails with `DuplicateId`, changing
    /// nothing, when a command already has that id.
    pub fn add_command_with_id(
        &mut self,
        id: String,
        command: String,
        working_dir: String,
        group: String,
        tags: Vec<String>,
        description: Option<String>,
    ) -> (r: Result<(), LegacyError>)
        requires
            old(self).wf(),
        ensures
            final(self).wf(),
            has_command(old(self)@.commands, id@) ==> r == Err::<(), LegacyError>(
                LegacyError::DuplicateId,
            ) && final(self)@ == old(self)@,
            !has_command(old(self)@.commands, id@) ==> r is Ok && final(self)@.commands == old(
                self,
            )@.commands.push(
                CommandView {
                    id: id@,
                    command: command@,
                    working_directory: working_dir@,
                    group: group@,
                    tags: string_set(tags@),
                    description: opt_string(description),
                    use_count: 1,
                },
            ) && final(self)@.groups == old(self)@.groups.insert(group@) && final(self)@.tags
                == old(self)@.tags.union(string_set(tags@)),
    {
        if self.position(&id).is_some() {
            return Err(LegacyError::DuplicateId);
        }
        add_all_to_set(&mut self.tags, &tags);
        add_to_set(&mut self.groups, group.clone());
        let cmd = Command {
            id,
            command,
            working_directory: working_dir,
            group,
            tags: unique_strings(&tags),
            description,
            use_count: 1,
        };
        let ghost cv = cmd@;
        let ghost before = self.commands@;
        self.commands.push(cmd);
        assert(self@.commands =~= old(self)@.commands.push(cv));
        assert forall|i: int| 0 <= i < self.commands@.len() implies no_repeats(
            #[trigger] self.commands@[i].tags@,
        ) by {
            if i < before.len() {
                assert(self.commands@[i] == before[i]);
            }
        }
        Ok(())
    }

    /// Appends a command under a fresh random id with a use count of one, and
    /// records its group and tags. Fails with `DuplicateId`, changing nothing,
    /// in the unlikely case that the drawn id is taken.
    pub fn add_command(
        &mut self,
        command: String,
        working_dir: String,
        group: String,
        tags: Vec<String>,
        description: Option<String>,
    ) -> (r: Result<(), LegacyError>)
        requires
            old(self).wf(),
        ensures
            final(self).wf(),
            r is Err ==> r == Err::<(), LegacyError>(LegacyError::DuplicateId) && final(self)@
                == old(self)@,
            r is Ok ==> final(self)@.commands.len() == old(self)@.commands.len() + 1
                && final(self)@.commands.drop_last() == old(self)@.commands
                && final(self)@.commands.last().id.len() == 36 && !has_command(
                old(self)@.commands,
                final(self)@.commands.last().id,
            ) && final(self)@.commands.last() == (CommandView {
                id: final(self)@.commands.last().id,
                command: command@,
                working_directory: working_dir@,
                group: group@,
                tags: string_set(tags@),
                description: opt_string(description),
                use_count: 1,
            }) && final(self)@.groups == old(self)@.groups.insert(group@) && final(self)@.tags
                == old(self)@.tags.union(string_set(tags@)),
    {
        let id = fresh_id();
        let ghost idv = id@;
        let r = self.add_command_with_id(id, command, working_dir, group, tags, description);
        if r.is_ok() {
            assert(self@.commands.drop_last() =~= old(self)@.commands);
        }
        r
    }

    /// Where the first command with `id` stands, if any.
    fn position(&self, id: &String) -> (r: Option<usize>)
        ensures
            match r {
                Some(i) => first_with_id(self@.commands, id@, i as int),
                None => !has_command(self@.commands, id@),
            },
    {
        let mut i: usize = 0;
        while i < self.commands.len()
            invariant
                i <= self.commands@.len(),
                forall|j: int| 0 <= j < i ==> self@.commands[j].id != id@,
            decreases self.commands@.len() - i,
        {
            if self.commands[i].id == *id {
                return Some(i);
            }
            i += 1;
        }
        None
    }

    /// The commands, in store order, that are in `group` if one is given,
    /// carry at least one of `tags` if they are given, and hold `query` in
    /// their text or description.
    pub fn search(&self, query: &str, group: Option<&str>, tags: Option<&Vec<String>>) -> (r: Vec<
        &Command,
    >)
        ensures
            r@.map_values(|c: &Command| c@) == self@.commands.filter(
                search_filter(query@, opt_str(group), opt_tags(tags)),
            ),
    {
        let ghost p = search_filter(query@, opt_str(group), opt_tags(tags));
        let ghost s = self@.commands;
        let mut r: Vec<&Command> = Vec::new();
        let mut i: usize = 0;
        while i < self.commands.len()
            invariant
                i <= s.len(),
                s == self@.commands,
                p == search_filter(query@, opt_str(group), opt_tags(tags)),
                r@.map_values(|c: &Command| c@) == s.subrange(0, i as int).filter(p),
            decreases s.len() - i,
        {
            let ghost before = r@.map_values(|c: &Command| c@);
            assert(s.subrange(0, i + 1) =~= s.subrange(0, i as int).push(s[i as int]));
            proof {
                s.subrange(0, i as int).lemma_filter_push(s[i as int], p);
            }
            let c = &self.commands[i];
            assert(s[i as int] == c@);
            if command_matches(c, query, group, tags) {
                r.push(c);
                assert(r@.map_values(|c: &Command| c@) =~= before.push(s[i as int]));
            }
            i += 1;
        }
        assert(s.subrange(0, s.len() as int) =~= s);
        r
    }

    /// The set of the groups of all commands.
    fn collect_groups(&self) -> (r: Vec<String>)
        ensures
            string_set(r@) == groups_of(self@.commands),
            no_repeats(r@),
    {
        let mut r: Vec<String> = Vec::new();
        let mut i: usize = 0;
        assert(groups_of(self@.commands.subrange(0, 0)) =~= string_set(r@));
        while i < self.commands.len()
            invariant
                i <= self.commands@.len(),
                string_set(r@) == groups_of(self@.commands.subrange(0, i as int)),
                no_repeats(r@),
            decreases self.commands@.len() - i,
        {
            add_to_set(&mut r, self.commands[i].group.clone());
            proof {
                lemma_groups_of_prefix(self@.commands, i as int);
            }
            i += 1;
        }
        assert(self@.commands.subrange(0, self@.commands.len() as int) =~= self@.commands);
        r
    }

    /// The set of the tags of all commands.
    fn collect_tags(&self) -> (r: Vec<String>)
        ensures
            string_set(r@) == tags_of(self@.commands),
            no_repeats(r@),
    {
        let mut r: Vec<String> = Vec::new();
        let mut i: usize = 0;
        assert(tags_of(self@.commands.subrange(0, 0)) =~= string_set(r@));
        while i < self.commands.len()
            invariant
                i <= self.commands@.len(),
                string_set(r@) == tags_of(self@.commands.subrange(0, i as int)),
                no_repeats(r@),
            decreases self.commands@.len() - i,
        {
            add_all_to_set(&mut r, &self.commands[i].tags);
            proof {
                lemma_tags_of_prefix(self@.commands, i as int);
            }
            i += 1;
        }
        assert(self@.commands.subrange(0, self@.commands.len() as int) =~= self@.commands);
        r
    }

    /// Applies `updates` to the first command with `id`. When the group or the
    /// tags change, the store's groups or tags are recomputed from all
    /// commands. Fails with `NotFound`, changing nothing, when no command has
    /// that id.
    pub fn update_command(&mut self, id: &str, updates: CommandUpdates) -> (r: Result<
        (),
        LegacyError,
    >)
        requires
            old(self).wf(),
        ensures
            final(self).wf(),
            !has_command(old(self)@.commands, id@) ==> r == Err::<(), LegacyError>(
                LegacyError::NotFound,
            ) && final(self)@ == old(self)@,
            has_command(old(self)@.commands, id@) ==> r is Ok && exists|i: int|
                first_with_id(old(self)@.commands, id@, i) && final(self)@.commands == old(
                    self,
                )@.commands.update(i, #[trigger] updated(old(self)@.commands[i], updates))
                    && final(self)@.groups == (if updates.group is Some {
                    groups_of(final(self)@.commands)
                } else {
                    old(self)@.groups
                }) && final(self)@.tags == (if updates.tags is Some {
                    tags_of(final(self)@.commands)
                } else {
                    old(self)@.tags
                }),
    {
        let key = String::from_str(id);
        let i = match self.position(&key) {
            Some(i) => i,
            None => {
                return Err(LegacyError::NotFound);
            },
        };
        let ghost spec_updates = updates;
        let regroup = updates.group.is_some();
        let retag = updates.tags.is_some();
        let mut c = self.commands.remove(i);
        let ghost cv = c@;
        assert(cv == old(self)@.commands[i as int]);
        if let Some(new_command) = updates.command {
            c.command = new_command;
        }
        if let Some(new_desc) = updates.description {
            c.description = Some(new_desc);
        }
        if let Some(new_group) = updates.group {
            c.group = new_group;
        }
        if let Some(new_tags) = updates.tags {
            c.tags = unique_strings(&new_tags);
        }
        assert(c@ == updated(cv, spec_updates));
        assert(no_repeats(c.tags@));
        let ghost nv = c@;
        self.commands.insert(i, c);
        assert(self@.commands =~= old(self)@.commands.update(i as int, nv));
        assert forall|k: int| 0 <= k < self.commands@.len() implies no_repeats(
            #[trigger] self.commands@[k].tags@,
        ) by {
            if k != i {
                assert(self.commands@[k] == old(self).commands@[k]);
            }
        }
        if regroup {
            self.groups = self.collect_groups();
        }
        if retag {
            self.tags = self.collect_tags();
        }
        Ok(())
    }

    /// Raises the use count of the first command with `id` by one (it stays
    /// at the maximum once there). Fails with `NotFound`, changing nothing,
    /// when no command has that id.
    pub fn increment_usage(&mut self, id: &str) -> (r: Result<(), LegacyError>)
        requires
            old(self).wf(),
        ensures
            final(self).wf(),
            !has_command(old(self)@.commands, id@) ==> r == Err::<(), LegacyError>(
                LegacyError::NotFound,
            ) && final(self)@ == old(self)@,
            has_command(old(self)@.commands, id@) ==> r is Ok && exists|i: int|
                first_with_id(old(self)@.commands, id@, i) && final(self)@ == (StoreView {
                    commands: old(self)@.commands.update(
                        i,
                        #[trigger] used_once_more(old(self)@.commands[i]),
                    ),
                    ..old(self)@
                }),
    {
        let key = String::from_str(id);
        let i = match self.position(&key) {
            Some(i) => i,
            None => {
                return Err(LegacyError::NotFound);
            },
        };
        let mut c = self.commands.remove(i);
        if c.use_count < u32::MAX {
            c.use_count = c.use_count + 1;
        }
        let ghost nv = c@;
        assert(nv == used_once_more(old(self)@.commands[i as int]));
        assert(no_repeats(c.tags@));
        self.commands.insert(i, c);
        assert(self@.commands =~= old(self)@.commands.update(i as int, nv));
        assert forall|k: int| 0 <= k < self.commands@.len() implies no_repeats(
            #[trigger] self.commands@[k].tags@,
        ) by {
            if k != i {
                assert(self.commands@[k] == old(self).commands@[k]);
            }
        }
        assert(first_with_id(old(self)@.commands, id@, i as int));
        Ok(())
    }
}

} // verus!
