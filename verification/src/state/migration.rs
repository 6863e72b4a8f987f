//! Migrating the TOML files of the state to the current format version.
//!
//! Each file carries a `version`. Files of an older version are backed up under a name with
//! their version (`settings.v0.toml`) and migrated version by version; the migrations that
//! apply depend on the file's name. Backups themselves are never migrated.

use vstd::prelude::*;
use vstd::string::StrSliceExecFns;

use crate::text::{decimal, push_decimal, str_eq, string_push, push_str};
use crate::state::tomldoc::{
    doc_shape, empty_inline_shape, empty_table_shape, has_prefix, integer_shape, shape_below,
    shape_put, shape_remove, string_shape, toml_get_integer, toml_inline_insert_str,
    toml_inline_new, toml_insert_inline4, toml_insert_table4, toml_keys1, toml_keys3,
    toml_parse, toml_parsed, toml_remove4, toml_set_integer, toml_table_insert_item,
    toml_table_insert_str, toml_table_new, toml_text, toml_to_text, key_views, TomlShape,
};
use toml_edit::DocumentMut;

verus! {

/// The format version that the state is written in.
pub const CURRENT_VERSION: u32 = 2;

/// Whether `regex`'s expression `pattern` matches somewhere in `text`; none for an expression
/// that does not compile.
pub uninterp spec fn regex_match(pattern: Seq<char>, text: Seq<char>) -> Option<bool>;

/// `regex`'s `Regex::new` followed by `Regex::is_match`.
#[verifier::external_body]
fn regex_is_match(pattern: &str, text: &str) -> (r: Option<bool>)
    ensures
        r == regex_match(pattern@, text@),
{
    match regex::Regex::new(pattern) {
        Ok(re) => Some(re.is_match(text)),
        Err(_) => None,
    }
}

/// The expression that names backups: a version and `.toml` at the end.
pub open spec fn backup_pattern() -> Seq<char> {
    seq!['\\', '.', 'v', '\\', 'd', '+', '\\', '.', 't', 'o', 'm', 'l', '$']
}

/// Whether a file name is that of a backup. (Calendars keep their alarms as `<id>.toml` with a
/// generated id, which never looks like this.)
pub fn is_backup_file(filename: &str) -> (r: bool)
    ensures
        r == (regex_match(backup_pattern(), filename@) == Some(true)),
{
    proof {
        reveal_strlit("\\.v\\d+\\.toml$");
        assert("\\.v\\d+\\.toml$"@ =~= backup_pattern());
    }
    match regex_is_match("\\.v\\d+\\.toml$", filename) {
        Some(b) => b,
        None => false,
    }
}

/// A change of the format of a file from one version to the next.
#[derive(Debug, Copy, Clone, PartialEq, Eq)]
pub enum MigrationStep {
    /// In `settings.toml`: a syncer's `password_cmd` becomes a `password_source` of type
    /// `Command`.
    SettingsV0ToV1,
    /// In `settings.toml`: a syncer's `password_source` becomes an empty encrypted `password`.
    SettingsV1ToV2,
}

/// The migrations: from which version, for which files, and what they change.
pub open spec fn migrations() -> Seq<(u32, Seq<char>, MigrationStep)> {
    seq![
        (0u32, settings_name(), MigrationStep::SettingsV0ToV1),
        (1u32, settings_name(), MigrationStep::SettingsV1ToV2),
    ]
}

pub open spec fn settings_name() -> Seq<char> {
    seq!['s', 'e', 't', 't', 'i', 'n', 'g', 's', '.', 't', 'o', 'm', 'l']
}

/// The migrations that take a file from version `version` to the next, in their order.
pub open spec fn steps_at(filename: Seq<char>, version: int, i: int) -> Seq<MigrationStep>
    decreases migrations().len() - i,
{
    if i < 0 || i >= migrations().len() {
        seq![]
    } else {
        let m = migrations()[i];
        (if m.0 == version && m.1 == filename {
            seq![m.2]
        } else {
            seq![]
        }) + steps_at(filename, version, i + 1)
    }
}

/// The migrations that take a file from `version` to the current version, in their order.
pub open spec fn plan(filename: Seq<char>, version: int) -> Seq<MigrationStep>
    decreases CURRENT_VERSION - version,
{
    if version >= CURRENT_VERSION {
        seq![]
    } else {
        steps_at(filename, version, 0) + plan(filename, version + 1)
    }
}

/// The migrations that take a file from `version` to the current version, in their order.
pub fn migration_plan(filename: &str, version: u32) -> (r: Vec<MigrationStep>)
    ensures
        r@ == plan(filename@, version as int),
{
    proof {
        reveal_strlit("settings.toml");
        assert("settings.toml"@ =~= settings_name());
    }
    let ghost start = version as int;
    let mut steps: Vec<MigrationStep> = Vec::new();
    let mut v = version;
    while v < CURRENT_VERSION
        invariant
            version <= v,
            plan(filename@, version as int) == steps@ + plan(filename@, v as int),
            "settings.toml"@ == settings_name(),
        decreases CURRENT_VERSION - v,
    {
        let is_settings = str_eq(filename, "settings.toml");
        let ghost before = steps@;
        if v == 0 && is_settings {
            steps.push(MigrationStep::SettingsV0ToV1);
        }
        if v == 1 && is_settings {
            steps.push(MigrationStep::SettingsV1ToV2);
        }
        proof {
            reveal_with_fuel(steps_at, 3);
            assert(steps@ =~= before + steps_at(filename@, v as int, 0));
            assert(plan(filename@, v as int) == steps_at(filename@, v as int, 0) + plan(filename@, v + 1));
            assert(before + steps_at(filename@, v as int, 0) + plan(filename@, v + 1) =~= before + (steps_at(filename@, v as int, 0) + plan(filename@, v + 1)));
        }
        v = v + 1;
    }
    proof {
        assert(steps@ + plan(filename@, v as int) =~= steps@);
    }
    steps
}

/// What to do with a state file.
#[derive(Debug, Clone, PartialEq, Eq)]
pub enum MigrationDecision {
    /// Leave the file as it is: a backup, or already at the current version.
    Keep,
    /// Back the file up under the given extension, apply the steps and write it with the current
    /// version.
    Migrate { from: u32, backup_extension: String, steps: Vec<MigrationStep> },
}

/// The extension of the backup of a file of the given version, as in `settings.v0.toml`.
pub open spec fn backup_extension_text(version: int) -> Seq<char> {
    seq!['v'] + decimal(version as nat) + seq!['.', 't', 'o', 'm', 'l']
}

/// The extension of the backup of a file of the given version.
pub fn backup_extension(version: u32) -> (r: String)
    ensures
        r@ == backup_extension_text(version as int),
{
    proof {
        reveal_strlit(".toml");
    }
    let mut out = String::new();
    string_push(&mut out, 'v');
    push_decimal(&mut out, version as u64);
    push_str(&mut out, ".toml");
    proof {
        assert(out@ =~= backup_extension_text(version as int));
    }
    out
}

/// The version a file declares: its integer `version` field cut to 32 bits, or 0 without one.
pub open spec fn declared_version(field: Option<i64>) -> u32 {
    match field {
        Some(v) => v as u32,
        None => 0,
    }
}

/// What to do with a state file of the given name whose `version` field holds the given
/// integer, if it holds one: backups and files at the current version are kept, others
/// migrated from their version.
pub fn decide_migration(filename: &str, version_field: Option<i64>) -> (r: MigrationDecision)
    ensures
        (regex_match(backup_pattern(), filename@) == Some(true) || declared_version(version_field)
            >= CURRENT_VERSION) ==> r == MigrationDecision::Keep,
        !(regex_match(backup_pattern(), filename@) == Some(true) || declared_version(version_field)
            >= CURRENT_VERSION) ==> (r matches MigrationDecision::Migrate { from, backup_extension, steps }
            && from == declared_version(version_field) && backup_extension@ == backup_extension_text(from as int)
            && steps@ == plan(filename@, from as int)),
{
    if is_backup_file(filename) {
        return MigrationDecision::Keep;
    }
    let version: u32 = match version_field {
        Some(v) => v as u32,
        None => 0,
    };
    if version >= CURRENT_VERSION {
        return MigrationDecision::Keep;
    }
    MigrationDecision::Migrate {
        from: version,
        backup_extension: backup_extension(version),
        steps: migration_plan(filename, version),
    }
}

/// Why a state file could not be migrated.
#[derive(Debug, Clone, PartialEq, Eq)]
pub enum MigrationError {
    /// The file is no TOML.
    Parse,
}

/// A migrated file: the extension of the backup of its previous content, and its new text.
#[derive(Debug, Clone, PartialEq, Eq)]
pub struct Migrated {
    pub backup_extension: String,
    pub text: String,
}

/// The key that a step replaces in a syncer table.
pub open spec fn step_key(step: MigrationStep) -> Seq<char> {
    match step {
        MigrationStep::SettingsV0ToV1 => "password_cmd"@,
        MigrationStep::SettingsV1ToV2 => "password_source"@,
    }
}

/// The path of the syncer table `collection.<c>.syncer.<s>`.
pub open spec fn syncer_path(c: Seq<char>, s: Seq<char>) -> Seq<Seq<char>> {
    seq!["collection"@, c, "syncer"@, s]
}

/// Whether a step edits the table at `p`: a syncer table `collection.<c>.syncer.<s>`, reached
/// through tables, that holds the step's key.
pub open spec fn edited_path(s: TomlShape, step: MigrationStep, p: Seq<Seq<char>>) -> bool {
    let t = s.0;
    &&& p.len() == 4
    &&& p == syncer_path(p[1], p[3])
    &&& t.contains_key(seq!["collection"@])
    &&& t.contains_key(seq!["collection"@, p[1], "syncer"@])
    &&& t.contains_key(p)
    &&& t[p].contains(step_key(step))
}

/// The table that replaces `password_cmd`: `type = "Command"` and the command.
pub open spec fn command_source(command: TomlShape) -> TomlShape {
    shape_put(
        shape_put(empty_table_shape(), seq![], "type"@, string_shape("Command"@)),
        seq![],
        "command"@,
        command,
    )
}

/// The inline table that replaces `password_source`: `{ nonce = "", ciphertext = "" }`.
pub open spec fn empty_password() -> TomlShape {
    shape_put(
        shape_put(empty_inline_shape(), seq![], "nonce"@, string_shape(seq![])),
        seq![],
        "ciphertext"@,
        string_shape(seq![]),
    )
}

/// The key that a step puts in place of the one it replaces.
pub open spec fn new_key(step: MigrationStep) -> Seq<char> {
    match step {
        MigrationStep::SettingsV0ToV1 => "password_source"@,
        MigrationStep::SettingsV1ToV2 => "password"@,
    }
}

/// The value that a step puts at its new key of the syncer table at `p`: the command table made
/// of the old `password_cmd`, or the empty encrypted password.
pub open spec fn replacement(s: TomlShape, step: MigrationStep, p: Seq<Seq<char>>) -> TomlShape {
    match step {
        MigrationStep::SettingsV0ToV1 => command_source(shape_below(s, p.push("password_cmd"@))),
        MigrationStep::SettingsV1ToV2 => empty_password(),
    }
}

/// What a step does to the syncer table at `p`: its key removed, the replacement put at the new
/// key.
pub open spec fn edit_syncer(s: TomlShape, step: MigrationStep, p: Seq<Seq<char>>) -> TomlShape {
    shape_put(shape_remove(s, p, step_key(step)), p, new_key(step), replacement(s, step, p))
}

/// Whether `q` lies at or below the entry `key` of one of the tables `d` of four keys' depth.
pub open spec fn under_entry(q: Seq<Seq<char>>, d: Set<Seq<Seq<char>>>, key: Seq<char>) -> bool {
    q.len() >= 5 && d.contains(q.subrange(0, 4)) && q[4] == key
}

/// The entries of `m` after the tables `d` lose what is at `old_key` and get, at `new_key`, the
/// entries of `x` of the table.
pub open spec fn edited_map<V>(
    m: Map<Seq<Seq<char>>, V>,
    x: spec_fn(Seq<Seq<char>>) -> Map<Seq<Seq<char>>, V>,
    d: Set<Seq<Seq<char>>>,
    old_key: Seq<char>,
    new_key: Seq<char>,
) -> Map<Seq<Seq<char>>, V> {
    Map::new(
        |q: Seq<Seq<char>>|
            if under_entry(q, d, new_key) {
                x(q.subrange(0, 4)).contains_key(q.subrange(5, q.len() as int))
            } else {
                !under_entry(q, d, old_key) && m.contains_key(q)
            },
        |q: Seq<Seq<char>>|
            if under_entry(q, d, new_key) {
                x(q.subrange(0, 4))[q.subrange(5, q.len() as int)]
            } else {
                m[q]
            },
    )
}

/// The shape after a step edits the syncer tables `d`, each as `edit_syncer` says.
pub open spec fn edited_shape(s: TomlShape, step: MigrationStep, d: Set<Seq<Seq<char>>>) -> TomlShape {
    let k = step_key(step);
    let n = new_key(step);
    let t = edited_map(s.0, |p: Seq<Seq<char>>| replacement(s, step, p).0, d, k, n);
    (
        Map::new(
            |q: Seq<Seq<char>>| t.contains_key(q),
            |q: Seq<Seq<char>>| if d.contains(q) { s.0[q].remove(k).insert(n) } else { t[q] },
        ),
        edited_map(s.1, |p: Seq<Seq<char>>| replacement(s, step, p).1, d, k, n),
        edited_map(s.2, |p: Seq<Seq<char>>| replacement(s, step, p).2, d, k, n),
    )
}

/// The syncer tables that a step edits.
pub open spec fn edited_paths(s: TomlShape, step: MigrationStep) -> Set<Seq<Seq<char>>> {
    Set::new(|p: Seq<Seq<char>>| edited_path(s, step, p))
}

/// What a step makes of a shape: every syncer table that holds its key edited.
pub open spec fn step_shape(s: TomlShape, step: MigrationStep) -> TomlShape {
    edited_shape(s, step, edited_paths(s, step))
}

/// The key a step replaces is not the one it puts in.
proof fn lemma_keys_differ(step: MigrationStep)
    ensures
        step_key(step) != new_key(step),
{
    reveal_strlit("password_cmd");
    reveal_strlit("password_source");
    reveal_strlit("password");
    assert("password_cmd"@.len() == 12);
    assert("password_source"@.len() == 15);
    assert("password"@.len() == 8);
}

/// A path lies below the entry `k` of the table at `p`, four keys deep, when it continues `p`
/// with `k`.
proof fn lemma_prefix_entry(q: Seq<Seq<char>>, p: Seq<Seq<char>>, k: Seq<char>)
    requires
        p.len() == 4,
    ensures
        has_prefix(q, p.push(k)) <==> (q.len() >= 5 && q.subrange(0, 4) == p && q[4] == k),
{
    if q.len() >= 5 && q.subrange(0, 4) == p && q[4] == k {
        assert(q.subrange(0, 5) =~= p.push(k));
    }
    if has_prefix(q, p.push(k)) {
        assert(q.subrange(0, 4) =~= q.subrange(0, 5).subrange(0, 4));
        assert(q.subrange(0, 5)[4] == q[4]);
        assert(p.push(k).subrange(0, 4) =~= p);
        assert(p.push(k)[4] == k);
    }
}

/// Editing one more syncer table, not yet edited, extends the edits made so far.
proof fn lemma_edit_extends(s: TomlShape, step: MigrationStep, d: Set<Seq<Seq<char>>>, p: Seq<Seq<char>>)
    requires
        forall|x: Seq<Seq<char>>| d.contains(x) ==> x.len() == 4,
        p.len() == 4,
        !d.contains(p),
    ensures
        edit_syncer(edited_shape(s, step, d), step, p) == edited_shape(s, step, d.insert(p)),
{
    let k = step_key(step);
    let n = new_key(step);
    lemma_keys_differ(step);
    let cur = edited_shape(s, step, d);
    let d2 = d.insert(p);
    assert forall|q: Seq<Seq<char>>| has_prefix(q, p.push(k)) || has_prefix(q, p.push(n)) || q.len() <= 4 || q.subrange(0, 4) != p || (q[4] != k && q[4] != n) by {
        lemma_prefix_entry(q, p, k);
        lemma_prefix_entry(q, p, n);
    }
    // below the old key of `p`, nothing was edited yet
    assert forall|r: Seq<Seq<char>>| #![auto] !under_entry(p.push(k) + r, d, k) && !under_entry(p.push(k) + r, d, n)
        && !d.contains(p.push(k) + r) by {
        let q = p.push(k) + r;
        assert(q.subrange(0, 4) =~= p);
        assert(q.len() >= 5);
    }
    assert(shape_below(cur, p.push(k)).0 =~= shape_below(s, p.push(k)).0);
    assert(shape_below(cur, p.push(k)).1 =~= shape_below(s, p.push(k)).1);
    assert(shape_below(cur, p.push(k)).2 =~= shape_below(s, p.push(k)).2);
    assert(replacement(cur, step, p) == replacement(s, step, p));
    let e = edit_syncer(cur, step, p);
    let t = edited_shape(s, step, d2);
    assert forall|q: Seq<Seq<char>>| #![trigger e.0.contains_key(q)] #![trigger t.0.contains_key(q)] e.0.contains_key(q) == t.0.contains_key(q) && (e.0.contains_key(q) ==> e.0[q] == t.0[q]) by {
        lemma_prefix_entry(q, p, k);
        lemma_prefix_entry(q, p, n);
        if d.contains(q) {
            assert(q.len() == 4);
        }
        if q == p {
            assert(!under_entry(q, d, k) && !under_entry(q, d, n));
            assert(!has_prefix(q, p.push(k)) && !has_prefix(q, p.push(n)));
            assert(cur.0.contains_key(p) == s.0.contains_key(p));
            assert(cur.0.contains_key(p) ==> cur.0[p] == s.0[p]);
        }
        if q.len() >= 5 {
            assert(q.subrange(5, q.len() as int) =~= q.subrange(p.push(n).len() as int, q.len() as int));
        }
    }
    assert forall|q: Seq<Seq<char>>| #![trigger e.1.contains_key(q)] #![trigger t.1.contains_key(q)] e.1.contains_key(q) == t.1.contains_key(q) && (e.1.contains_key(q) ==> e.1[q] == t.1[q]) by {
        lemma_prefix_entry(q, p, k);
        lemma_prefix_entry(q, p, n);
        if q.len() >= 5 {
            assert(q.subrange(5, q.len() as int) =~= q.subrange(p.push(n).len() as int, q.len() as int));
        }
    }
    assert forall|q: Seq<Seq<char>>| #![trigger e.2.contains_key(q)] #![trigger t.2.contains_key(q)] e.2.contains_key(q) == t.2.contains_key(q) && (e.2.contains_key(q) ==> e.2[q] == t.2[q]) by {
        lemma_prefix_entry(q, p, k);
        lemma_prefix_entry(q, p, n);
        if q.len() >= 5 {
            assert(q.subrange(5, q.len() as int) =~= q.subrange(p.push(n).len() as int, q.len() as int));
        }
    }
    assert(e.0 =~= t.0);
    assert(e.1 =~= t.1);
    assert(e.2 =~= t.2);
}

/// What the steps make of a shape, one after the other.
pub open spec fn steps_shape(s: TomlShape, steps: Seq<MigrationStep>) -> TomlShape
    decreases steps.len(),
{
    if steps.len() == 0 {
        s
    } else {
        steps_shape(step_shape(s, steps[0]), steps.drop_first())
    }
}

/// What the migration makes of a file of shape `s` at `version`: for each version up to the
/// current one, the file's steps at that version, then `version` raised by one.
pub open spec fn migrated(s: TomlShape, filename: Seq<char>, version: int) -> TomlShape
    decreases CURRENT_VERSION - version,
{
    if version >= CURRENT_VERSION {
        s
    } else {
        migrated(
            shape_put(
                steps_shape(s, steps_at(filename, version, 0)),
                seq![],
                "version"@,
                integer_shape((version + 1) as i64),
            ),
            filename,
            version + 1,
        )
    }
}

/// The root's integer `version`, if it has one.
pub open spec fn version_field(s: TomlShape) -> Option<i64> {
    if s.2.contains_key(seq!["version"@]) {
        Some(s.2[seq!["version"@]])
    } else {
        None
    }
}

/// Edits of syncer tables leave every table that they do not edit, and that does not lie below
/// one they edit, as it was.
proof fn lemma_edited_frame(s: TomlShape, step: MigrationStep, d: Set<Seq<Seq<char>>>, q: Seq<Seq<char>>)
    requires
        q.len() <= 4 || !d.contains(q.subrange(0, 4)),
        !d.contains(q),
    ensures
        edited_shape(s, step, d).0.contains_key(q) == s.0.contains_key(q),
        s.0.contains_key(q) ==> edited_shape(s, step, d).0[q] == s.0[q],
{
}

/// After a step, no syncer table holds the key that the step replaces, and each table that held
/// it holds the step's new key in its place.
pub proof fn lemma_step_replaces_key(s: TomlShape, step: MigrationStep, p: Seq<Seq<char>>)
    ensures
        !edited_path(step_shape(s, step), step, p),
        edited_path(s, step, p) ==> step_shape(s, step).0[p].contains(new_key(step)),
{
    lemma_keys_differ(step);
    let d = edited_paths(s, step);
    let r = step_shape(s, step);
    if p.len() == 4 {
        let c = seq!["collection"@];
        let t3 = seq!["collection"@, p[1], "syncer"@];
        lemma_edited_frame(s, step, d, c);
        lemma_edited_frame(s, step, d, t3);
        if d.contains(p) {
            assert(r.0[p] == s.0[p].remove(step_key(step)).insert(new_key(step)));
        } else {
            lemma_edited_frame(s, step, d, p);
        }
    }
}

/// A migrated file is at the current version.
pub proof fn lemma_migrated_version(s: TomlShape, filename: Seq<char>, version: int)
    requires
        0 <= version < CURRENT_VERSION,
    ensures
        version_field(migrated(s, filename, version)) == Some(CURRENT_VERSION as i64),
    decreases CURRENT_VERSION - version,
{
    let key = seq!["version"@];
    let m = shape_put(
        steps_shape(s, steps_at(filename, version, 0)),
        seq![],
        "version"@,
        integer_shape((version + 1) as i64),
    );
    if version + 1 < CURRENT_VERSION {
        lemma_migrated_version(m, filename, version + 1);
    } else {
        assert(seq![].push("version"@) =~= key);
        assert(key.subrange(0, 1) =~= key);
        assert(key.subrange(1, 1) =~= Seq::<Seq<char>>::empty());
        assert(has_prefix(key, seq![].push("version"@)));
        assert(m.2.contains_key(key));
        assert(m.2[key] == (version + 1) as i64);
        assert(migrated(m, filename, version + 1) == m);
    }
}

/// The migrations that take a file from `version` to the next, in their order.
fn steps_for(filename: &str, version: u32) -> (r: Vec<MigrationStep>)
    ensures
        r@ == steps_at(filename@, version as int, 0),
{
    proof {
        reveal_strlit("settings.toml");
        assert("settings.toml"@ =~= settings_name());
        reveal_with_fuel(steps_at, 3);
    }
    let is_settings = str_eq(filename, "settings.toml");
    let mut steps: Vec<MigrationStep> = Vec::new();
    if version == 0 && is_settings {
        steps.push(MigrationStep::SettingsV0ToV1);
    }
    if version == 1 && is_settings {
        steps.push(MigrationStep::SettingsV1ToV2);
    }
    proof {
        assert(steps@ =~= steps_at(filename@, version as int, 0));
    }
    steps
}

/// Edits the syncer table `collection.<c>.syncer.<s>` as a step does, if it holds the step's
/// key; says whether it did.
fn edit_syncer_table(doc: &mut DocumentMut, step: MigrationStep, c: &str, s: &str) -> (r: bool)
    ensures
        ({
            let st = doc_shape(*old(doc));
            let p = syncer_path(c@, s@);
            &&& r == (st.0.contains_key(p) && st.0[p].contains(step_key(step)))
            &&& (r ==> doc_shape(*final(doc)) == edit_syncer(st, step, p))
            &&& (!r ==> *final(doc) == *old(doc))
        }),
{
    let ghost st = doc_shape(*doc);
    let ghost p = syncer_path(c@, s@);
    match step {
        MigrationStep::SettingsV0ToV1 => {
            let command = match toml_remove4(doc, "collection", c, "syncer", s, "password_cmd") {
                Some(item) => item,
                None => return false,
            };
            let mut source = toml_table_new();
            toml_table_insert_str(&mut source, "type", "Command");
            toml_table_insert_item(&mut source, "command", command);
            let ghost removed = doc_shape(*doc);
            proof {
                assert(!has_prefix(p, p.push("password_cmd"@)));
                assert(removed.0.contains_key(p));
            }
            let _ = toml_insert_table4(doc, "collection", c, "syncer", s, "password_source", source);
            true
        },
        MigrationStep::SettingsV1ToV2 => {
            if toml_remove4(doc, "collection", c, "syncer", s, "password_source").is_none() {
                return false;
            }
            let mut password = toml_inline_new();
            toml_inline_insert_str(&mut password, "nonce", "");
            toml_inline_insert_str(&mut password, "ciphertext", "");
            let ghost removed = doc_shape(*doc);
            proof {
                reveal_strlit("");
                assert(""@ =~= Seq::<char>::empty());
                assert(!has_prefix(p, p.push("password_source"@)));
                assert(removed.0.contains_key(p));
            }
            let _ = toml_insert_inline4(doc, "collection", c, "syncer", s, "password", password);
            true
        },
    }
}

/// Applies a step to every syncer table of a document that holds the step's key.
fn apply_step(doc: &mut DocumentMut, step: MigrationStep)
    ensures
        doc_shape(*final(doc)) == step_shape(doc_shape(*old(doc)), step),
{
    let ghost s0 = doc_shape(*doc);
    let ghost mut done: Set<Seq<Seq<char>>> = Set::empty();
    proof {
        assert(edited_shape(s0, step, done).0 =~= s0.0);
        assert(edited_shape(s0, step, done).1 =~= s0.1);
        assert(edited_shape(s0, step, done).2 =~= s0.2);
    }
    let collections = match toml_keys1(&*doc, "collection") {
        Some(ks) => ks,
        None => {
            proof {
                assert(edited_paths(s0, step) =~= done);
            }
            return;
        },
    };
    let ghost cs = key_views(collections@);
    let mut i: usize = 0;
    while i < collections.len()
        invariant
            i <= collections@.len(),
            cs == key_views(collections@),
            cs.len() == collections@.len(),
            s0.0.contains_key(seq!["collection"@]),
            forall|q: Seq<Seq<char>>|
                #[trigger] s0.0.contains_key(q) && q.len() > 1 && q.subrange(0, 1) == seq!["collection"@]
                    ==> cs.contains(q[1]),
            cs.no_duplicates(),
            doc_shape(*doc) == edited_shape(s0, step, done),
            forall|p: Seq<Seq<char>>| #[trigger] done.contains(p) ==> p.len() == 4,
            forall|p: Seq<Seq<char>>|
                #[trigger] done.contains(p) <==> (edited_path(s0, step, p) && cs.subrange(0, i as int).contains(p[1])),
        decreases collections@.len() - i,
    {
        let c = collections[i].as_str();
        assert(cs[i as int] == c@);
        let ghost done_c = cs.subrange(0, i as int);
        let ghost table3 = seq!["collection"@, c@, "syncer"@];
        proof {
            lemma_edited_frame(s0, step, done, table3);
        }
        match toml_keys3(&*doc, "collection", c, "syncer") {
            Some(syncers) => {
                let ghost ss = key_views(syncers@);
                proof {
                    assert forall|q: Seq<Seq<char>>|
                        #[trigger] s0.0.contains_key(q) && q.len() > 3 && q.subrange(0, 3) == table3
                            implies ss.contains(q[3]) by {
                        assert(q[1] == table3[1]);
                        if q.len() >= 4 && done.contains(q.subrange(0, 4)) {
                            assert(q.subrange(0, 4)[1] == c@);
                            let k = choose|k: int| 0 <= k < done_c.len() && done_c[k] == c@;
                            assert(done_c[k] == cs[k]);
                            assert(false);
                        }
                        if done.contains(q) {
                            assert(q.len() == 4);
                            assert(q.subrange(0, 4) =~= q);
                        }
                        lemma_edited_frame(s0, step, done, q);
                    }
                }
                let mut j: usize = 0;
                while j < syncers.len()
                    invariant
                        i < collections@.len(),
                        i < cs.len(),
                        done_c.len() == i,
                        j <= syncers@.len(),
                        j <= ss.len(),
                        ss.len() == syncers@.len(),
                        c@ == cs[i as int],
                        done_c == cs.subrange(0, i as int),
                        table3 == seq!["collection"@, c@, "syncer"@],
                        s0.0.contains_key(seq!["collection"@]),
                        forall|q: Seq<Seq<char>>|
                #[trigger] s0.0.contains_key(q) && q.len() > 1 && q.subrange(0, 1) == seq!["collection"@]
                    ==> cs.contains(q[1]),
                        cs.no_duplicates(),
                        ss == key_views(syncers@),
                        s0.0.contains_key(table3),
                        forall|q: Seq<Seq<char>>|
                            #[trigger] s0.0.contains_key(q) && q.len() > 3 && q.subrange(0, 3) == table3
                                ==> ss.contains(q[3]),
                        ss.no_duplicates(),
                        doc_shape(*doc) == edited_shape(s0, step, done),
                        forall|p: Seq<Seq<char>>| #[trigger] done.contains(p) ==> p.len() == 4,
                        forall|p: Seq<Seq<char>>|
                            #[trigger] done.contains(p) <==> (edited_path(s0, step, p) && (done_c.contains(p[1])
                                || (p[1] == c@ && ss.subrange(0, j as int).contains(p[3])))),
                    decreases syncers@.len() - j,
                {
                    let s = syncers[j].as_str();
                    assert(ss[j as int] == s@);
                    let ghost p = syncer_path(c@, s@);
                    proof {
                        if done.contains(p) {
                            assert(p[1] == c@ && p[3] == s@);
                            if done_c.contains(c@) {
                                let k = choose|k: int| 0 <= k < done_c.len() && done_c[k] == c@;
                                assert(done_c[k] == cs[k]);
                                assert(false);
                            } else {
                                let k = choose|k: int| 0 <= k < j && ss.subrange(0, j as int)[k] == s@;
                                assert(ss.subrange(0, j as int)[k] == ss[k]);
                                assert(false);
                            }
                        }
                        lemma_edited_frame(s0, step, done, p);
                        assert(cs.contains(c@));
                        assert(ss.contains(s@));
                    }
                    let ghost before = done;
                    let edited = edit_syncer_table(doc, step, c, s);
                    proof {
                        if edited {
                            lemma_edit_extends(s0, step, before, p);
                            done = before.insert(p);
                        }
                        assert(ss.subrange(0, j + 1) =~= ss.subrange(0, j as int).push(s@));
                        assert forall|q: Seq<Seq<char>>|
                            #[trigger] done.contains(q) <==> (edited_path(s0, step, q) && (done_c.contains(q[1])
                                || (q[1] == c@ && ss.subrange(0, j + 1).contains(q[3])))) by {
                            if q == p {
                                assert(p[1] == c@ && p[3] == s@);
                                assert(p == syncer_path(p[1], p[3]));
                                assert(edited == edited_path(s0, step, p));
                                assert(!done_c.contains(c@));
                                assert(ss.subrange(0, j + 1)[j as int] == s@);
                                assert(ss.subrange(0, j + 1).contains(s@));
                            } else {
                                if edited_path(s0, step, q) && q[1] == c@ && ss.subrange(0, j + 1).contains(q[3])
                                    && !ss.subrange(0, j as int).contains(q[3]) {
                                    let sub = ss.subrange(0, j + 1);
                                    let k = choose|k: int| 0 <= k < sub.len() && sub[k] == q[3];
                                    if k < j {
                                        assert(ss.subrange(0, j as int)[k] == q[3]);
                                    }
                                    assert(q[3] == s@);
                                    assert(q =~= p);
                                }
                            }
                        }
                    }
                    j = j + 1;
                }
                proof {
                    assert(ss.subrange(0, j as int) =~= ss);
                    assert forall|q: Seq<Seq<char>>|
                        #[trigger] done.contains(q) <==> (edited_path(s0, step, q) && (done_c.contains(q[1]) || q[1] == c@)) by {
                        if edited_path(s0, step, q) && q[1] == c@ {
                            assert(q.subrange(0, 3) =~= table3);
                            assert(s0.0.contains_key(q));
                            assert(ss.subrange(0, j as int).contains(q[3]));
                        }
                    }
                }
            },
            None => {
                proof {
                    assert forall|q: Seq<Seq<char>>| edited_path(s0, step, q) implies q[1] != c@ by {
                        if q[1] == c@ {
                            assert(seq!["collection"@, q[1], "syncer"@] =~= table3);
                        }
                    }
                    assert forall|q: Seq<Seq<char>>|
                        #[trigger] done.contains(q) <==> (edited_path(s0, step, q) && (done_c.contains(q[1]) || q[1] == c@)) by {
                    }
                }
            },
        }
        proof {
            let next_c = cs.subrange(0, i + 1);
            assert(next_c =~= done_c.push(c@));
            assert forall|q: Seq<Seq<char>>|
                #[trigger] done.contains(q) <==> (edited_path(s0, step, q) && next_c.contains(q[1])) by {
                if next_c.contains(q[1]) && !done_c.contains(q[1]) {
                    let k = choose|k: int| 0 <= k < next_c.len() && next_c[k] == q[1];
                    if k < i {
                        assert(done_c[k] == q[1]);
                    }
                }
                if done_c.contains(q[1]) {
                    let k = choose|k: int| 0 <= k < done_c.len() && done_c[k] == q[1];
                    assert(next_c[k] == q[1]);
                }
                if q[1] == c@ {
                    assert(next_c[i as int] == c@);
                }
            }
        }
        i = i + 1;
    }
    proof {
        assert(cs.subrange(0, i as int) =~= cs);
        assert forall|q: Seq<Seq<char>>| edited_path(s0, step, q) implies cs.subrange(0, i as int).contains(q[1]) by {
            let t3 = seq!["collection"@, q[1], "syncer"@];
            assert(t3.subrange(0, 1) =~= seq!["collection"@]);
            assert(s0.0.contains_key(t3));
            assert(cs.contains(t3[1]));
        }
        assert(edited_paths(s0, step) =~= done);
    }
}

/// Migrates the text of the state file `filename` to the current version. Backups, and files at
/// the current version or later, are left as they are (none); a text that is no TOML is refused.
/// Otherwise the file's steps from its version on are applied, `version` raised after each
/// version, and the new text given with the extension of the backup of the old one.
pub fn migrate_content(filename: &str, content: &str) -> (r: Result<Option<Migrated>, MigrationError>)
    ensures
        regex_match(backup_pattern(), filename@) == Some(true) ==> r == Ok::<Option<Migrated>, MigrationError>(None),
        regex_match(backup_pattern(), filename@) != Some(true) ==> match toml_parsed(content@) {
            None => r == Err::<Option<Migrated>, MigrationError>(MigrationError::Parse),
            Some(s) => if declared_version(version_field(s)) >= CURRENT_VERSION {
                r == Ok::<Option<Migrated>, MigrationError>(None)
            } else {
                r matches Ok(Some(m)) && m.backup_extension@ == backup_extension_text(
                    declared_version(version_field(s)) as int,
                ) && exists|d: DocumentMut|
                    #![trigger toml_text(d)]
                    m.text@ == toml_text(d) && doc_shape(d) == migrated(
                        s,
                        filename@,
                        declared_version(version_field(s)) as int,
                    )
            },
        },
{
    if is_backup_file(filename) {
        return Ok(None);
    }
    let mut doc = match toml_parse(content) {
        Some(d) => d,
        None => return Err(MigrationError::Parse),
    };
    let ghost s0 = doc_shape(doc);
    let field = toml_get_integer(&doc, "version");
    assert(field == version_field(s0));
    let from: u32 = match field {
        Some(v) => v as u32,
        None => 0,
    };
    if from >= CURRENT_VERSION {
        return Ok(None);
    }
    let mut version = from;
    while version < CURRENT_VERSION
        invariant
            from <= version <= CURRENT_VERSION,
            migrated(doc_shape(doc), filename@, version as int) == migrated(s0, filename@, from as int),
        decreases CURRENT_VERSION - version,
    {
        let ghost sv = doc_shape(doc);
        let steps = steps_for(filename, version);
        let mut k: usize = 0;
        proof {
            assert(steps@.subrange(0, steps@.len() as int) =~= steps@);
        }
        while k < steps.len()
            invariant
                k <= steps@.len(),
                steps@ == steps_at(filename@, version as int, 0),
                steps_shape(doc_shape(doc), steps@.subrange(k as int, steps@.len() as int)) == steps_shape(sv, steps@),
            decreases steps@.len() - k,
        {
            let ghost cur = doc_shape(doc);
            apply_step(&mut doc, steps[k]);
            proof {
                let rest = steps@.subrange(k as int, steps@.len() as int);
                assert(rest[0] == steps@[k as int]);
                assert(rest.drop_first() =~= steps@.subrange(k + 1, steps@.len() as int));
            }
            k = k + 1;
        }
        proof {
            assert(steps@.subrange(k as int, steps@.len() as int) =~= Seq::<MigrationStep>::empty());
        }
        let next: u32 = version + 1;
        toml_set_integer(&mut doc, "version", next as i64);
        version = next;
    }
    let text = toml_to_text(&doc);
    Ok(Some(Migrated { backup_extension: backup_extension(from), text }))
}

} // verus!
