//! The configuration: its types, how layered configuration files combine,
//! and the built-in defaults.
use vstd::prelude::*;
use crate::error::QwaError;
use crate::list::{chars_lex_lt, lex_lt};
use crate::text::{chars_eq, chars_of, string_of, views};
use vstd::string::StringExecFns;

verus! {

/// How the journal files of a command are laid out.
#[derive(Clone, Copy, Debug, PartialEq, Eq, Structural)]
pub enum DailyFile {
    /// YYYY-MM-DD.md
    Line,
    /// YYYY/MM/DD.md
    Slash,
    /// YYYY/MM/DD/YYYY-MM-DD.md
    SlashLine,
    /// file-name.md / Header for YYYY-MM-DD
    Header,
    /// file-name.md
    Onefile,
}

impl Default for DailyFile {
    fn default() -> (r: Self)
        ensures
            r == DailyFile::Line,
    {
        DailyFile::Line
    }
}

/// Configuration for List
#[derive(Clone, Copy, Debug, PartialEq, Eq, Structural)]
pub struct ListConfig {
    pub limit: usize,
}

/// Configuration for Created
#[derive(Debug)]
pub struct CreatedConfig {
    pub field: Option<String>,
    pub format: Option<String>,
}

/// Configuration for Modified
#[derive(Debug)]
pub struct ModifiedConfig {
    pub field: Option<String>,
    pub format: Option<String>,
}

/// Configuration for Command
#[derive(Debug)]
pub struct CommandConfig {
    pub base_directory: Option<String>,
    pub auto_create: bool,
    pub date_format: Option<DailyFile>,
    pub template: Option<String>,
    pub directory: Option<String>,
    pub file: Option<String>,
    pub insert: Option<String>,
    pub tags: Option<Vec<String>>,
    pub not_format: bool,
    pub end_line: bool,
}

/// General Configuration for the Application.  `command` holds the
/// commands by name, each name once.
#[derive(Debug)]
pub struct Config {
    pub no_global: bool,
    pub base_directory: Option<String>,
    pub default_command: Option<String>,
    pub auto_command: bool,
    pub date_format: Option<DailyFile>,
    pub list: Option<ListConfig>,
    pub time_format: Option<String>,
    pub created: Option<CreatedConfig>,
    pub modified: Option<ModifiedConfig>,
    pub command: Vec<(String, CommandConfig)>,
}

// ---------------------------------------------------------------------------
// Views
// ---------------------------------------------------------------------------

pub open spec fn opt_view(o: Option<String>) -> Option<Seq<char>> {
    match o {
        Some(s) => Some(s@),
        None => None,
    }
}

pub open spec fn opt_views(o: Option<Vec<String>>) -> Option<Seq<Seq<char>>> {
    match o {
        Some(v) => Some(views(v@)),
        None => None,
    }
}

/// The abstract value of a `CreatedConfig` or `ModifiedConfig`.
pub struct StampFieldView {
    pub field: Option<Seq<char>>,
    pub format: Option<Seq<char>>,
}

pub struct CommandView {
    pub base_directory: Option<Seq<char>>,
    pub auto_create: bool,
    pub date_format: Option<DailyFile>,
    pub template: Option<Seq<char>>,
    pub directory: Option<Seq<char>>,
    pub file: Option<Seq<char>>,
    pub insert: Option<Seq<char>>,
    pub tags: Option<Seq<Seq<char>>>,
    pub not_format: bool,
    pub end_line: bool,
}

pub struct ConfigView {
    pub no_global: bool,
    pub base_directory: Option<Seq<char>>,
    pub default_command: Option<Seq<char>>,
    pub auto_command: bool,
    pub date_format: Option<DailyFile>,
    pub list: Option<ListConfig>,
    pub time_format: Option<Seq<char>>,
    pub created: Option<StampFieldView>,
    pub modified: Option<StampFieldView>,
    pub commands: Map<Seq<char>, CommandView>,
}

impl View for CreatedConfig {
    type V = StampFieldView;

    open spec fn view(&self) -> StampFieldView {
        StampFieldView { field: opt_view(self.field), format: opt_view(self.format) }
    }
}

impl View for ModifiedConfig {
    type V = StampFieldView;

    open spec fn view(&self) -> StampFieldView {
        StampFieldView { field: opt_view(self.field), format: opt_view(self.format) }
    }
}

impl View for CommandConfig {
    type V = CommandView;

    open spec fn view(&self) -> CommandView {
        CommandView {
            base_directory: opt_view(self.base_directory),
            auto_create: self.auto_create,
            date_format: self.date_format,
            template: opt_view(self.template),
            directory: opt_view(self.directory),
            file: opt_view(self.file),
            insert: opt_view(self.insert),
            tags: opt_views(self.tags),
            not_format: self.not_format,
            end_line: self.end_line,
        }
    }
}

/// The commands by name; a later entry of a name takes precedence.
pub open spec fn command_map(t: Seq<(String, CommandConfig)>) -> Map<Seq<char>, CommandView>
    decreases t.len(),
{
    if t.len() == 0 {
        Map::empty()
    } else {
        command_map(t.drop_last()).insert(t.last().0@, t.last().1@)
    }
}

/// Each command name occurs once.
pub open spec fn unique_names(t: Seq<(String, CommandConfig)>) -> bool {
    forall|i: int, j: int| 0 <= i < j < t.len() ==> t[i].0@ != t[j].0@
}

impl Config {
    pub open spec fn wf(&self) -> bool {
        unique_names(self.command@)
    }
}

pub open spec fn stamp_view_opt<T: View<V = StampFieldView>>(o: Option<T>) -> Option<StampFieldView> {
    match o {
        Some(c) => Some(c@),
        None => None,
    }
}

impl View for Config {
    type V = ConfigView;

    open spec fn view(&self) -> ConfigView {
        ConfigView {
            no_global: self.no_global,
            base_directory: opt_view(self.base_directory),
            default_command: opt_view(self.default_command),
            auto_command: self.auto_command,
            date_format: self.date_format,
            list: self.list,
            time_format: opt_view(self.time_format),
            created: stamp_view_opt(self.created),
            modified: stamp_view_opt(self.modified),
            commands: command_map(self.command@),
        }
    }
}

// ---------------------------------------------------------------------------
// Copies
// ---------------------------------------------------------------------------

pub fn copy_opt_string(o: &Option<String>) -> (r: Option<String>)
    ensures
        opt_view(r) == opt_view(*o),
{
    match o {
        Some(s) => Some(s.clone()),
        None => None,
    }
}

pub fn copy_strings(v: &Vec<String>) -> (r: Vec<String>)
    ensures
        views(r@) == views(v@),
{
    let mut r: Vec<String> = Vec::new();
    let mut i: usize = 0;
    while i < v.len()
        invariant
            i <= v.len(),
            views(r@) == views(v@).take(i as int),
        decreases v.len() - i,
    {
        let ghost prev = r@;
        r.push(v[i].clone());
        assert(views(r@) =~= views(v@).take(i + 1)) by {
            assert(views(r@) =~= views(prev).push(v@[i as int]@));
        }
        i = i + 1;
    }
    assert(views(v@).take(v.len() as int) =~= views(v@));
    r
}

impl CreatedConfig {
    pub fn copy(&self) -> (r: Self)
        ensures
            r@ == self@,
    {
        CreatedConfig { field: copy_opt_string(&self.field), format: copy_opt_string(&self.format) }
    }
}

impl ModifiedConfig {
    pub fn copy(&self) -> (r: Self)
        ensures
            r@ == self@,
    {
        ModifiedConfig {
            field: copy_opt_string(&self.field),
            format: copy_opt_string(&self.format),
        }
    }
}

impl CommandConfig {
    /// A copy of the command.
    pub fn copy(&self) -> (r: Self)
        ensures
            r@ == self@,
    {
        CommandConfig {
            base_directory: copy_opt_string(&self.base_directory),
            auto_create: self.auto_create,
            date_format: self.date_format,
            template: copy_opt_string(&self.template),
            directory: copy_opt_string(&self.directory),
            file: copy_opt_string(&self.file),
            insert: copy_opt_string(&self.insert),
            tags: match &self.tags {
                Some(t) => Some(copy_strings(t)),
                None => None,
            },
            not_format: self.not_format,
            end_line: self.end_line,
        }
    }

    /// The layout of the command's files; `line` when none is configured.
    pub fn date_format(&self) -> (r: DailyFile)
        ensures
            r == match self.date_format {
                Some(f) => f,
                None => DailyFile::Line,
            },
    {
        match self.date_format {
            Some(f) => f,
            None => DailyFile::Line,
        }
    }
}

// ---------------------------------------------------------------------------
// The command table
// ---------------------------------------------------------------------------

pub proof fn lemma_command_map_index(t: Seq<(String, CommandConfig)>, k: int)
    requires
        unique_names(t),
        0 <= k < t.len(),
    ensures
        command_map(t).contains_key(t[k].0@),
        command_map(t)[t[k].0@] == t[k].1@,
    decreases t.len(),
{
    if k < t.len() - 1 {
        let u = t.drop_last();
        assert(u[k] == t[k]);
        lemma_command_map_index(u, k);
    }
}

pub proof fn lemma_command_map_absent(t: Seq<(String, CommandConfig)>, name: Seq<char>)
    requires
        forall|j: int| 0 <= j < t.len() ==> t[j].0@ != name,
    ensures
        !command_map(t).contains_key(name),
    decreases t.len(),
{
    if t.len() > 0 {
        lemma_command_map_absent(t.drop_last(), name);
    }
}

pub proof fn lemma_command_map_keys(t: Seq<(String, CommandConfig)>, name: Seq<char>)
    requires
        command_map(t).contains_key(name),
    ensures
        exists|j: int| 0 <= j < t.len() && t[j].0@ == name,
    decreases t.len(),
{
    if t.last().0@ != name {
        lemma_command_map_keys(t.drop_last(), name);
        let j = choose|j: int| 0 <= j < t.len() - 1 && t.drop_last()[j].0@ == name;
        assert(t[j] == t.drop_last()[j]);
    }
}

pub proof fn lemma_command_map_update(t: Seq<(String, CommandConfig)>, k: int, name: String, c: CommandConfig)
    requires
        unique_names(t),
        0 <= k < t.len(),
        t[k].0@ == name@,
    ensures
        unique_names(t.update(k, (name, c))),
        command_map(t.update(k, (name, c))) == command_map(t).insert(name@, c@),
{
    let u = t.update(k, (name, c));
    assert forall|key: Seq<char>| #[trigger] command_map(u).contains_key(key) <==> command_map(t).insert(name@, c@).contains_key(key) by {
        if command_map(u).contains_key(key) {
            lemma_command_map_keys(u, key);
            let j = choose|j: int| 0 <= j < u.len() && u[j].0@ == key;
            if j != k {
                lemma_command_map_index(t, j);
            }
        }
        if command_map(t).contains_key(key) {
            lemma_command_map_keys(t, key);
            let j = choose|j: int| 0 <= j < t.len() && t[j].0@ == key;
            if j != k {
                lemma_command_map_index(u, j);
            } else {
                lemma_command_map_index(u, k);
            }
        }
        if key == name@ {
            lemma_command_map_index(u, k);
        }
    }
    assert forall|key: Seq<char>| #[trigger] command_map(u).contains_key(key) implies command_map(u)[key] == command_map(t).insert(name@, c@)[key] by {
        lemma_command_map_keys(u, key);
        let j = choose|j: int| 0 <= j < u.len() && u[j].0@ == key;
        lemma_command_map_index(u, j);
        if j != k {
            lemma_command_map_index(t, j);
        }
    }
    assert(command_map(u) =~= command_map(t).insert(name@, c@));
}

/// Index of the command called `name`, if any.
pub fn find_command(t: &Vec<(String, CommandConfig)>, name: &[char]) -> (r: Option<usize>)
    requires
        unique_names(t@),
    ensures
        match r {
            Some(k) => k < t@.len() && t@[k as int].0@ == name@ && command_map(t@).contains_key(
                name@,
            ) && command_map(t@)[name@] == t@[k as int].1@,
            None => !command_map(t@).contains_key(name@),
        },
{
    let mut k: usize = 0;
    while k < t.len()
        invariant
            k <= t.len(),
            unique_names(t@),
            forall|j: int| 0 <= j < k ==> t@[j].0@ != name@,
        decreases t.len() - k,
    {
        let here = chars_of(t[k].0.as_str());
        if chars_eq(&here, name) {
            proof {
                lemma_command_map_index(t@, k as int);
            }
            return Some(k);
        }
        k = k + 1;
    }
    proof {
        lemma_command_map_absent(t@, name@);
    }
    None
}

/// Adds or replaces the command called `name`.
pub fn insert_command(t: &mut Vec<(String, CommandConfig)>, name: String, c: CommandConfig)
    requires
        unique_names(old(t)@),
    ensures
        unique_names(final(t)@),
        command_map(final(t)@) == command_map(old(t)@).insert(name@, c@),
{
    let key = chars_of(name.as_str());
    match find_command(t, &key) {
        Some(k) => {
            proof {
                lemma_command_map_update(t@, k as int, name, c);
            }
            t.set(k, (name, c));
        },
        None => {
            let ghost prev = t@;
            proof {
                lemma_command_map_absent_name(prev, name@);
            }
            t.push((name, c));
            proof {
                assert(t@.drop_last() =~= prev);
            }
        },
    }
}

pub proof fn lemma_command_map_absent_name(t: Seq<(String, CommandConfig)>, name: Seq<char>)
    requires
        !command_map(t).contains_key(name),
    ensures
        forall|j: int| 0 <= j < t.len() ==> t[j].0@ != name,
    decreases t.len(),
{
    if t.len() > 0 {
        assert(t.last().0@ != name);
        lemma_command_map_absent_name(t.drop_last(), name);
        assert forall|j: int| 0 <= j < t.len() implies t[j].0@ != name by {
            if j < t.len() - 1 {
                assert(t[j] == t.drop_last()[j]);
            }
        }
    }
}

/// The command called `command_name`, or `UnknownCommand`.
pub fn check_command_exists(config: &Config, command_name: &str) -> (r: Result<CommandConfig, QwaError>)
    requires
        config.wf(),
    ensures
        match r {
            Ok(c) => config@.commands.contains_key(command_name@) && c@ == config@.commands[command_name@],
            Err(QwaError::UnknownCommand(n)) => !config@.commands.contains_key(command_name@) && n@ == command_name@,
            Err(_) => false,
        },
{
    let key = chars_of(command_name);
    match find_command(&config.command, &key) {
        Some(k) => Ok(config.command[k].1.copy()),
        None => Err(QwaError::UnknownCommand(string_of(&key))),
    }
}


// ---------------------------------------------------------------------------
// Combining configurations
// ---------------------------------------------------------------------------

/// `a.or(b)`.
pub open spec fn or_else<T>(a: Option<T>, b: Option<T>) -> Option<T> {
    match a {
        Some(x) => Some(x),
        None => b,
    }
}

/// A configuration file laid over another: every option it sets wins,
/// `auto_command` holds when either sets it, commands are united with those
/// of the upper file winning, and `no_global` stays that of the lower.
pub open spec fn spec_merge(base: ConfigView, over: ConfigView) -> ConfigView {
    ConfigView {
        no_global: base.no_global,
        base_directory: or_else(over.base_directory, base.base_directory),
        default_command: or_else(over.default_command, base.default_command),
        auto_command: over.auto_command || base.auto_command,
        date_format: or_else(over.date_format, base.date_format),
        list: or_else(over.list, base.list),
        time_format: or_else(over.time_format, base.time_format),
        created: or_else(over.created, base.created),
        modified: or_else(over.modified, base.modified),
        commands: base.commands.union_prefer_right(over.commands),
    }
}

fn or_string(a: Option<String>, b: Option<String>) -> (r: Option<String>)
    ensures
        opt_view(r) == or_else(opt_view(a), opt_view(b)),
{
    match a {
        Some(x) => Some(x),
        None => b,
    }
}

fn or_plain<T>(a: Option<T>, b: Option<T>) -> (r: Option<T>)
    ensures
        r == or_else(a, b),
{
    match a {
        Some(x) => Some(x),
        None => b,
    }
}

fn or_created(a: Option<CreatedConfig>, b: Option<CreatedConfig>) -> (r: Option<CreatedConfig>)
    ensures
        stamp_view_opt(r) == or_else(stamp_view_opt(a), stamp_view_opt(b)),
{
    match a {
        Some(x) => Some(x),
        None => b,
    }
}

fn or_modified(a: Option<ModifiedConfig>, b: Option<ModifiedConfig>) -> (r: Option<ModifiedConfig>)
    ensures
        stamp_view_opt(r) == or_else(stamp_view_opt(a), stamp_view_opt(b)),
{
    match a {
        Some(x) => Some(x),
        None => b,
    }
}

/// Merge: Two Configurations
pub fn merge_config(base_config: Config, override_config: Config) -> (r: Config)
    requires
        base_config.wf(),
        override_config.wf(),
    ensures
        r.wf(),
        r@ == spec_merge(base_config@, override_config@),
{
    let ghost bv = base_config@;
    let ghost ov = override_config@;
    let Config {
        no_global,
        base_directory,
        default_command,
        auto_command,
        date_format,
        list,
        time_format,
        created,
        modified,
        command,
    } = base_config;
    let over_commands = override_config.command;
    let mut table = command;
    let mut i: usize = 0;
    assert(over_commands@.take(0) =~= Seq::<(String, CommandConfig)>::empty());
    assert(command_map(table@).union_prefer_right(command_map(Seq::<(String, CommandConfig)>::empty())) =~= command_map(table@));
    while i < over_commands.len()
        invariant
            i <= over_commands.len(),
            unique_names(table@),
            over_commands@ == override_config.command@,
            bv.commands.union_prefer_right(command_map(over_commands@.take(i as int))) == command_map(table@),
        decreases over_commands.len() - i,
    {
        let name = over_commands[i].0.clone();
        let c = over_commands[i].1.copy();
        let ghost before = command_map(table@);
        insert_command(&mut table, name, c);
        proof {
            let t = over_commands@.take(i + 1);
            assert(t.drop_last() =~= over_commands@.take(i as int));
            assert(command_map(t) == command_map(over_commands@.take(i as int)).insert(name@, c@));
            assert(bv.commands.union_prefer_right(command_map(t)) =~= before.insert(name@, c@));
        }
        i = i + 1;
    }
    assert(over_commands@.take(over_commands.len() as int) =~= over_commands@);
    let r = Config {
        no_global,
        base_directory: or_string(override_config.base_directory, base_directory),
        default_command: or_string(override_config.default_command, default_command),
        auto_command: override_config.auto_command || auto_command,
        date_format: or_plain(override_config.date_format, date_format),
        list: or_plain(override_config.list, list),
        time_format: or_string(override_config.time_format, time_format),
        created: or_created(override_config.created, created),
        modified: or_modified(override_config.modified, modified),
        command: table,
    };
    assert(r@.commands == spec_merge(bv, ov).commands);
    r
}

/// A command with the configuration's base directory filled in when it
/// has none of its own.
pub open spec fn with_base(c: CommandView, b: Seq<char>) -> CommandView {
    CommandView {
        base_directory: match c.base_directory {
            Some(d) => Some(d),
            None => Some(b),
        },
        ..c
    }
}

/// Every command of the map with the base directory filled in.
pub open spec fn fill_base(m: Map<Seq<char>, CommandView>, b: Seq<char>) -> Map<Seq<char>, CommandView> {
    m.map_values(|c: CommandView| with_base(c, b))
}

pub proof fn lemma_fill_base(s1: Seq<(String, CommandConfig)>, s2: Seq<(String, CommandConfig)>, b: Seq<char>)
    requires
        s1.len() == s2.len(),
        forall|j: int| 0 <= j < s1.len() ==> s2[j].0@ == s1[j].0@ && s2[j].1@ == with_base(s1[j].1@, b),
    ensures
        command_map(s2) == fill_base(command_map(s1), b),
    decreases s1.len(),
{
    if s1.len() == 0 {
        assert(fill_base(command_map(s1), b) =~= Map::empty());
    } else {
        let u1 = s1.drop_last();
        let u2 = s2.drop_last();
        assert forall|j: int| 0 <= j < u1.len() implies u2[j].0@ == u1[j].0@ && u2[j].1@ == with_base(u1[j].1@, b) by {
            assert(u1[j] == s1[j]);
            assert(u2[j] == s2[j]);
        }
        lemma_fill_base(u1, u2, b);
        assert(command_map(s2) =~= fill_base(command_map(s1), b));
    }
}

impl Config {
    pub fn set_limit(&mut self, limit: usize)
        ensures
            final(self).list == Some(ListConfig { limit }),
            final(self).command@ == old(self).command@,
            final(self)@ == (ConfigView { list: Some(ListConfig { limit }), ..old(self)@ }),
    {
        self.list = Some(ListConfig { limit });
    }

    /// Gives each command without a base directory of its own the
    /// configuration's base directory.
    pub fn apply_base_directory_to_commands(&mut self)
        requires
            old(self).wf(),
        ensures
            final(self).wf(),
            final(self)@ == (ConfigView {
                commands: match old(self)@.base_directory {
                    Some(b) => fill_base(old(self)@.commands, b),
                    None => old(self)@.commands,
                },
                ..old(self)@
            }),
    {
        let base = match &self.base_directory {
            Some(b) => b.clone(),
            None => return,
        };
        let ghost start = self.command@;
        let mut i: usize = 0;
        while i < self.command.len()
            invariant
                i <= self.command@.len(),
                self.command@.len() == start.len(),
                opt_view(self.base_directory) == Some(base@),
                self@ == (ConfigView { commands: self@.commands, ..old(self)@ }),
                forall|j: int| 0 <= j < i ==> (#[trigger] self.command@[j]).0@ == start[j].0@ && self.command@[j].1@ == with_base(start[j].1@, base@),
                forall|j: int| i <= j < start.len() ==> #[trigger] self.command@[j] == start[j],
            decreases self.command@.len() - i,
        {
            let name = self.command[i].0.clone();
            let mut c = self.command[i].1.copy();
            if c.base_directory.is_none() {
                c.base_directory = Some(base.clone());
            }
            self.command.set(i, (name, c));
            i = i + 1;
        }
        proof {
            lemma_fill_base(start, self.command@, base@);
            assert forall|x: int, y: int| 0 <= x < y < self.command@.len() implies self.command@[x].0@ != self.command@[y].0@ by {
                assert(start[x].0@ != start[y].0@);
            }
        }
    }
}


// ---------------------------------------------------------------------------
// Built-in configurations and loading
// ---------------------------------------------------------------------------

/// The configuration everything else is laid over: the given base
/// directory, `%H:%M:%S` times, a list limit of 10, `%Y-%m-%d %H:%M:%S`
/// for the created and modified fields, the `line` layout, no commands.
pub open spec fn starting_view(base: Seq<char>) -> ConfigView {
    ConfigView {
        no_global: false,
        base_directory: Some(base),
        default_command: None,
        auto_command: false,
        date_format: Some(DailyFile::Line),
        list: Some(ListConfig { limit: 10 }),
        time_format: Some("%H:%M:%S"@),
        created: Some(StampFieldView { field: None, format: Some("%Y-%m-%d %H:%M:%S"@) }),
        modified: Some(StampFieldView { field: None, format: Some("%Y-%m-%d %H:%M:%S"@) }),
        commands: Map::empty(),
    }
}

/// The `default` command of the built-in configuration.
pub open spec fn default_command_view() -> CommandView {
    CommandView {
        base_directory: Some("~/Documents/Qwato"@),
        auto_create: true,
        date_format: None,
        template: None,
        directory: None,
        file: Some("%Y-%m-%d.md"@),
        insert: None,
        tags: None,
        not_format: false,
        end_line: false,
    }
}

/// The configuration used when no configuration file is found.
pub open spec fn default_view() -> ConfigView {
    ConfigView {
        no_global: false,
        base_directory: Some("~/Documents/Qwato"@),
        default_command: Some("default"@),
        auto_command: false,
        date_format: None,
        list: Some(ListConfig { limit: 10 }),
        time_format: Some("%H:%M:%S"@),
        created: Some(StampFieldView { field: None, format: Some("%Y-%m-%d %H:%M:%S"@) }),
        modified: Some(StampFieldView { field: None, format: Some("%Y-%m-%d %H:%M:%S"@) }),
        commands: Map::empty().insert("default"@, default_command_view()),
    }
}

/// The configuration files laid over `base` in order.  A file marked
/// `no_global` is skipped, except the last one (the one of highest
/// priority), which is always laid.
pub open spec fn layered(base: ConfigView, cs: Seq<ConfigView>, total: int) -> ConfigView
    decreases cs.len(),
{
    if cs.len() == 0 {
        base
    } else {
        let prev = layered(base, cs.drop_last(), total);
        if cs.len() == total || !cs.last().no_global {
            spec_merge(prev, cs.last())
        } else {
            prev
        }
    }
}

pub open spec fn config_views(cs: Seq<Config>) -> Seq<ConfigView> {
    cs.map_values(|c: Config| c@)
}

fn stamp_default() -> (r: Option<String>)
    ensures
        opt_view(r) == Some("%Y-%m-%d %H:%M:%S"@),
{
    Some(String::from_str("%Y-%m-%d %H:%M:%S"))
}

impl Config {
    /// The configuration everything is laid over, with the home directory
    /// (or `~` where there is none) as base directory.
    pub fn new() -> (r: Config)
        ensures
            r.wf(),
            exists|home: Seq<char>| r@ == starting_view(home),
    {
        let base = match crate::paths::home_directory() {
            Some(h) => h,
            None => String::from_str("~"),
        };
        let r = Config {
            no_global: false,
            base_directory: Some(base),
            default_command: None,
            auto_command: false,
            date_format: Some(DailyFile::Line),
            list: Some(ListConfig { limit: 10 }),
            time_format: Some(String::from_str("%H:%M:%S")),
            created: Some(CreatedConfig { field: None, format: stamp_default() }),
            modified: Some(ModifiedConfig { field: None, format: stamp_default() }),
            command: Vec::new(),
        };
        assert(command_map(r.command@) =~= Map::empty());
        assert(r@ == starting_view(r@.base_directory->0));
        r
    }

    /// The built-in configuration: base directory `~/Documents/Qwato`, the
    /// `default` command writing to `%Y-%m-%d.md` there and created when
    /// missing.
    pub fn default() -> (r: Config)
        ensures
            r.wf(),
            r@ == default_view(),
    {
        let command = CommandConfig {
            base_directory: Some(String::from_str("~/Documents/Qwato")),
            auto_create: true,
            date_format: None,
            template: None,
            directory: None,
            file: Some(String::from_str("%Y-%m-%d.md")),
            insert: None,
            tags: None,
            not_format: false,
            end_line: false,
        };
        let mut table: Vec<(String, CommandConfig)> = Vec::new();
        table.push((String::from_str("default"), command));
        let r = Config {
            no_global: false,
            base_directory: Some(String::from_str("~/Documents/Qwato")),
            default_command: Some(String::from_str("default")),
            auto_command: false,
            date_format: None,
            list: Some(ListConfig { limit: 10 }),
            time_format: Some(String::from_str("%H:%M:%S")),
            created: Some(CreatedConfig { field: None, format: stamp_default() }),
            modified: Some(ModifiedConfig { field: None, format: stamp_default() }),
            command: table,
        };
        assert(r.command@.drop_last() =~= Seq::<(String, CommandConfig)>::empty());
        assert(r.command@.last().1@ == default_command_view());
        assert(r.command@.last().0@ == "default"@);
        assert(command_map(Seq::<(String, CommandConfig)>::empty()) == Map::<Seq<char>, CommandView>::empty());
        assert(command_map(r.command@) =~= Map::empty().insert("default"@, default_command_view()));
        r
    }
}

/// Lays the configuration files over `base`, as `layered` states.
pub fn layer_configs(base: Config, loaded: Vec<Config>) -> (r: Config)
    requires
        base.wf(),
        forall|i: int| 0 <= i < loaded@.len() ==> (#[trigger] loaded@[i]).wf(),
    ensures
        r.wf(),
        r@ == layered(base@, config_views(loaded@), loaded@.len() as int),
{
    let ghost cv = config_views(loaded@);
    let total = loaded.len();
    let mut config = base;
    let mut rest = loaded;
    let mut count: usize = 0;
    assert(cv.take(0) =~= Seq::<ConfigView>::empty());
    while count < total
        invariant
            count <= total,
            total == cv.len(),
            rest@.len() == total - count,
            forall|j: int| 0 <= j < rest@.len() ==> (#[trigger] rest@[j]).wf(),
            forall|j: int| 0 <= j < rest@.len() ==> #[trigger] rest@[j]@ == cv[count + j],
            config.wf(),
            config@ == layered(base@, cv.take(count as int), total as int),
        decreases total - count,
    {
        let next = rest.remove(0);
        proof {
            assert(cv.take(count + 1).drop_last() =~= cv.take(count as int));
            assert(cv.take(count + 1).last() == next@);
        }
        if count + 1 == total || !next.no_global {
            config = merge_config(config, next);
        }
        count = count + 1;
    }
    assert(cv.take(total as int) =~= cv);
    config
}

/// Load: the configuration from the parsed configuration files, lowest
/// priority first; the built-in configuration when there are none.
pub fn load_config(loaded: Vec<Config>) -> (r: Config)
    requires
        forall|i: int| 0 <= i < loaded@.len() ==> (#[trigger] loaded@[i]).wf(),
    ensures
        r.wf(),
        loaded@.len() == 0 ==> r@ == default_view(),
        loaded@.len() > 0 ==> exists|home: Seq<char>|
            r@ == layered(starting_view(home), config_views(loaded@), loaded@.len() as int),
{
    if loaded.len() == 0 {
        return Config::default();
    }
    let ghost cv = config_views(loaded@);
    let ghost n = loaded@.len();
    let base = Config::new();
    let ghost home = choose|home: Seq<char>| base@ == starting_view(home);
    let r = layer_configs(base, loaded);
    assert(r@ == layered(starting_view(home), cv, n as int));
    r
}

// ---------------------------------------------------------------------------
// Which configuration files are read, in which order
// ---------------------------------------------------------------------------

/// What `--config` names: a file, or a directory with the `.toml` files
/// found in it.
pub enum GivenConfig {
    File(String),
    Directory(Vec<String>),
}

/// Where `x` goes among texts in ascending order: after every text that
/// does not sort after it (stable).
pub open spec fn text_insert_pos(s: Seq<Seq<char>>, x: Seq<char>) -> int
    decreases s.len(),
{
    if s.len() == 0 {
        0
    } else if !lex_lt(x, s[0]) {
        1 + text_insert_pos(s.drop_first(), x)
    } else {
        0
    }
}

pub proof fn lemma_text_insert_pos(s: Seq<Seq<char>>, x: Seq<char>)
    ensures
        0 <= text_insert_pos(s, x) <= s.len(),
    decreases s.len(),
{
    if s.len() > 0 {
        lemma_text_insert_pos(s.drop_first(), x);
    }
}

/// Texts in ascending order, as a stable sort leaves them.  For the paths
/// of the files of one directory this is the order of their names.
pub open spec fn sorted_texts(s: Seq<Seq<char>>) -> Seq<Seq<char>>
    decreases s.len(),
{
    if s.len() == 0 {
        s
    } else {
        let r = sorted_texts(s.drop_last());
        proof {
            lemma_text_insert_pos(r, s.last());
        }
        r.insert(text_insert_pos(r, s.last()), s.last())
    }
}

/// The configuration files, lowest priority first: the `.toml` files of
/// the home configuration directory in order, then `./qwato.toml` where it
/// exists, then the file `--config` names, or the `.toml` files of the
/// directory it names, in order.
pub open spec fn spec_config_files(
    home_files: Seq<Seq<char>>,
    current: Option<Seq<char>>,
    given: Option<GivenConfig>,
) -> Seq<Seq<char>> {
    sorted_texts(home_files) + match current {
        Some(c) => seq![c],
        None => Seq::empty(),
    } + match given {
        Some(GivenConfig::File(p)) => seq![p@],
        Some(GivenConfig::Directory(fs)) => sorted_texts(views(fs@)),
        None => Seq::empty(),
    }
}

fn sort_texts(v: &Vec<String>) -> (r: Vec<String>)
    ensures
        views(r@) == sorted_texts(views(v@)),
{
    let ghost input = views(v@);
    let mut sorted: Vec<String> = Vec::new();
    let mut i: usize = 0;
    assert(input.take(0) =~= Seq::<Seq<char>>::empty());
    assert(views(sorted@) =~= Seq::<Seq<char>>::empty());
    while i < v.len()
        invariant
            i <= v.len(),
            input == views(v@),
            views(sorted@) == sorted_texts(input.take(i as int)),
        decreases v.len() - i,
    {
        let x = v[i].clone();
        let xc = chars_of(x.as_str());
        let ghost sv = views(sorted@);
        let mut p: usize = 0;
        assert(sv.skip(0) =~= sv);
        while p < sorted.len() && !chars_lex_lt(&xc, &chars_of(sorted[p].as_str()))
            invariant
                p <= sorted.len(),
                sv == views(sorted@),
                xc@ == x@,
                text_insert_pos(sv, x@) == p + text_insert_pos(sv.skip(p as int), x@),
            decreases sorted.len() - p,
        {
            proof {
                let u = sv.skip(p as int);
                assert(sv[p as int] == sorted@[p as int]@);
                assert(u[0] == sv[p as int]);
                assert(u.drop_first() =~= sv.skip(p + 1));
            }
            p = p + 1;
        }
        proof {
            let u = sv.skip(p as int);
            if p < sorted.len() {
                assert(sv[p as int] == sorted@[p as int]@);
                assert(u[0] == sv[p as int]);
            }
            assert(input.take(i + 1).drop_last() =~= input.take(i as int));
            assert(input.take(i + 1).last() == x@);
        }
        let ghost xv = x@;
        sorted.insert(p, x);
        proof {
            assert(views(sorted@) =~= sv.insert(p as int, xv));
        }
        i = i + 1;
    }
    assert(input.take(v.len() as int) =~= input);
    sorted
}

/// The configuration files to read, lowest priority first, as
/// `spec_config_files` states; `NoConfigFile` when there is none.
pub fn config_file_order(
    home_files: &Vec<String>,
    current: Option<String>,
    given: &Option<GivenConfig>,
) -> (r: Result<Vec<String>, QwaError>)
    ensures
        ({
            let spec = spec_config_files(views(home_files@), opt_view(current), *given);
            match r {
                Ok(v) => spec.len() > 0 && views(v@) == spec,
                Err(e) => spec.len() == 0 && e == QwaError::NoConfigFile,
            }
        }),
{
    let mut out = sort_texts(home_files);
    let ghost a = views(out@);
    let ghost cur_part: Seq<Seq<char>> = match opt_view(current) {
        Some(c) => seq![c],
        None => Seq::empty(),
    };
    match current {
        Some(c) => {
            out.push(c);
        },
        None => {},
    }
    let ghost b = views(out@);
    assert(b =~= a + cur_part);
    match given {
        Some(GivenConfig::File(p)) => {
            out.push(p.clone());
            assert(views(out@) =~= b + seq![p@]);
        },
        Some(GivenConfig::Directory(fs)) => {
            let sorted = sort_texts(fs);
            let mut j: usize = 0;
            while j < sorted.len()
                invariant
                    j <= sorted.len(),
                    views(out@) == b + views(sorted@).take(j as int),
                decreases sorted.len() - j,
            {
                let item = sorted[j].clone();
                let ghost prev = views(out@);
                out.push(item);
                assert(views(out@) =~= prev.push(sorted@[j as int]@));
                assert(views(sorted@).take(j + 1) =~= views(sorted@).take(j as int).push(sorted@[j as int]@));
                assert(views(out@) =~= b + views(sorted@).take(j + 1));
                j = j + 1;
            }
            assert(views(sorted@).take(sorted.len() as int) =~= views(sorted@));
        },
        None => {
            assert(views(out@) =~= b + Seq::<Seq<char>>::empty());
        },
    }
    if out.len() == 0 {
        Err(QwaError::NoConfigFile)
    } else {
        Ok(out)
    }
}

} // verus!
