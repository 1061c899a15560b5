//! Loading files into certificate sets, and what the user is told about it.
use vstd::prelude::*;
use vstd::string::*;
use crate::certs;
use crate::certs::{CertSet, ExtractedMaterial, LoadSlot};
use crate::chain;
use crate::clock;
use crate::clock::Moment;
use crate::crypto::{Certificate, PrivateKey};
use crate::text;

verus! {

/// The title of the dialog in which a file for a component is chosen.
pub open spec fn title_for(slot: LoadSlot) -> Seq<char> {
    match slot {
        LoadSlot::Leaf => "Open Certificate (leaf)"@,
        LoadSlot::Intermediates => "Open Intermediate Certificate(s)"@,
        LoadSlot::Key => "Open Private Key"@,
    }
}

/// The title of the dialog in which a file for a component is chosen.
pub fn dialog_title(slot: LoadSlot) -> (r: &'static str)
    ensures
        r@ == title_for(slot),
        r@ == match slot {
            LoadSlot::Leaf => "Open Certificate (leaf)"@,
            LoadSlot::Intermediates => "Open Intermediate Certificate(s)"@,
            LoadSlot::Key => "Open Private Key"@,
        },
{
    match slot {
        LoadSlot::Leaf => "Open Certificate (leaf)",
        LoadSlot::Intermediates => "Open Intermediate Certificate(s)",
        LoadSlot::Key => "Open Private Key",
    }
}

/// What a component is called in the log.
pub open spec fn slot_text(slot: LoadSlot) -> Seq<char> {
    match slot {
        LoadSlot::Leaf => "certificate"@,
        LoadSlot::Intermediates => "intermediate(s)"@,
        LoadSlot::Key => "private key"@,
    }
}

/// What a component is called in the log.
pub fn slot_name(slot: LoadSlot) -> (r: &'static str)
    ensures
        r@ == slot_text(slot),
{
    match slot {
        LoadSlot::Leaf => "certificate",
        LoadSlot::Intermediates => "intermediate(s)",
        LoadSlot::Key => "private key",
    }
}

/// The directories that files were last loaded from: for each component, and of all.
pub struct Directories {
    pub leaf: Option<String>,
    pub intermediates: Option<String>,
    pub key: Option<String>,
    pub latest: Option<String>,
}

impl Directories {
    /// The directory of a component.
    pub open spec fn own(self, slot: LoadSlot) -> Option<String> {
        match slot {
            LoadSlot::Leaf => self.leaf,
            LoadSlot::Intermediates => self.intermediates,
            LoadSlot::Key => self.key,
        }
    }

    /// Where a dialog for a component begins: in the component's own directory or, as long as there
    /// is none, in the latest one.
    pub open spec fn begin(self, slot: LoadSlot) -> Option<String> {
        if self.own(slot) is Some {
            self.own(slot)
        } else {
            self.latest
        }
    }

    /// Whether `after` are these directories with one more remembered for a slot.
    pub open spec fn noted(self, slot: LoadSlot, directory: Seq<char>, after: Directories) -> bool {
        &&& after.own(slot) matches Some(d) && d@ == directory
        &&& after.latest matches Some(d) && d@ == directory
        &&& forall|s: LoadSlot| s != slot ==> #[trigger] after.own(s) == self.own(s)
    }

    /// No directories.
    pub fn new() -> (r: Directories)
        ensures
            forall|s: LoadSlot| #[trigger] r.own(s) is None,
            r.latest is None,
    {
        Directories { leaf: None, intermediates: None, key: None, latest: None }
    }

    /// Remembers the directory of a file that was loaded.
    pub fn remember(&mut self, slot: LoadSlot, directory: &str)
        ensures
            old(self).noted(slot, directory@, *final(self)),
    {
        self.latest = Some(directory.to_string());
        let own: Option<String> = Some(directory.to_string());
        match slot {
            LoadSlot::Leaf => {
                self.leaf = own;
            },
            LoadSlot::Intermediates => {
                self.intermediates = own;
            },
            LoadSlot::Key => {
                self.key = own;
            },
        }
    }

    /// Where a dialog for a component begins.
    pub fn start(&self, slot: LoadSlot) -> (r: &Option<String>)
        ensures
            *r == self.begin(slot),
    {
        let own: &Option<String> = match slot {
            LoadSlot::Leaf => &self.leaf,
            LoadSlot::Intermediates => &self.intermediates,
            LoadSlot::Key => &self.key,
        };
        if own.is_some() {
            own
        } else {
            &self.latest
        }
    }
}

/// The verdict in a report: its first line that begins with `Overall`, without that label.
pub open spec fn overall_of(report: Seq<char>) -> Seq<char> {
    text::without_leading(first_overall(text::lines(report)), "Overall    : "@)
}

/// The first line that begins with `Overall`, or nothing.
pub open spec fn first_overall(lines: Seq<Seq<char>>) -> Seq<char>
    decreases lines.len(),
{
    if lines.len() == 0 {
        Seq::empty()
    } else if text::begins(lines[0], "Overall"@) {
        lines[0]
    } else {
        first_overall(lines.drop_first())
    }
}

/// The verdict in a report.
pub fn overall(report: &str) -> (r: String)
    ensures
        r@ == overall_of(report@),
{
    proof {
        reveal_strlit("Overall    : ");
    }
    let lines: Vec<String> = text::lines_of(report);
    let ghost all = text::texts(lines@);
    let mut i: usize = 0;
    assert(all.skip(0) =~= all);
    while i < lines.len()
        invariant
            i <= lines@.len(),
            all == text::texts(lines@),
            all == text::lines(report@),
            "Overall    : "@.len() == 13,
            first_overall(all.skip(i as int)) == first_overall(all),
        decreases lines.len() - i,
    {
        assert(all.skip(i as int)[0] == lines@[i as int]@);
        if text::starts_with(&lines[i], "Overall") {
            return text::trim_start_matches(&lines[i], "Overall    : ");
        }
        assert(all.skip(i as int).drop_first() =~= all.skip(i + 1));
        i += 1;
    }
    assert(all.skip(i as int) =~= Seq::empty());
    text::trim_start_matches(&String::new(), "Overall    : ")
}

/// What the user is told after a set was verified: whether that is good news, and the text.
#[derive(Debug)]
pub struct Note {
    pub good: bool,
    pub text: String,
}

/// The text of a note.
pub open spec fn note_text(good: bool, summary: Seq<char>) -> Seq<char> {
    "\x03Verification "@ + (if good {
        "completed"@
    } else {
        "FAILED"@
    }) + "\n\n"@ + summary
}

/// Whether `n` is the note on a verification with the result `r`.
pub open spec fn notes(n: Note, r: Result<String, String>) -> bool {
    match r {
        Ok(report) => n.good == !text::occurs(report@, "FAIL"@) && n.text@ == note_text(
            n.good,
            overall_of(report@),
        ),
        Err(e) => !n.good && n.text@ == note_text(false, "verification error: "@ + e@),
    }
}

/// Makes the note on a verification.
pub fn note_of(result: &Result<String, String>) -> (n: Note)
    ensures
        notes(n, *result),
{
    let (good, summary) = match result {
        Ok(report) => (!text::contains(report, "FAIL"), overall(report)),
        Err(e) => {
            let mut summary: String = "verification error: ".to_string();
            summary.append(e);
            (false, summary)
        },
    };
    let mut out: String = "\x03Verification ".to_string();
    out.append(if good { "completed" } else { "FAILED" });
    out.append("\n\n");
    out.append(&summary);
    Note { good, text: out }
}

/// Whether `after` is the set after material from a file was put into it.
pub open spec fn holds_material(
    before: CertSet,
    path: Seq<char>,
    material: ExtractedMaterial,
    after: CertSet,
) -> bool {
    &&& after.id == before.id
    &&& after.title == before.title
    &&& after.verification is None
    &&& after.version == before.version + 1
    &&& match material {
        ExtractedMaterial::Certificate(c) => {
            &&& after.leaf == Some(c)
            &&& after.leaf_path matches Some(p) && p@ == path
            &&& after.intermediates == before.intermediates
            &&& after.key == before.key
            &&& after.key_path == before.key_path
        },
        ExtractedMaterial::Certificates(v) => {
            &&& after.intermediates@.len() == before.intermediates@.len() + v@.len()
            &&& after.intermediates@.take(before.intermediates@.len() as int) == before.intermediates@
            &&& forall|i: int|
                0 <= i < v@.len() ==> {
                    let added = #[trigger] after.intermediates@[before.intermediates@.len() + i];
                    added.0@ == path && added.1 == v@[i]
                }
            &&& after.leaf == before.leaf
            &&& after.leaf_path == before.leaf_path
            &&& after.key == before.key
            &&& after.key_path == before.key_path
        },
        ExtractedMaterial::PrivateKey(k) => {
            &&& after.key == Some(k)
            &&& after.key_path matches Some(p) && p@ == path
            &&& after.leaf == before.leaf
            &&& after.leaf_path == before.leaf_path
            &&& after.intermediates == before.intermediates
        },
    }
}

/// Puts material from a file into a set.
pub fn load_material(set: &mut CertSet, path: &str, material: ExtractedMaterial)
    requires
        old(set).version < u64::MAX,
    ensures
        holds_material(*old(set), path@, material, *final(set)),
{
    match material {
        ExtractedMaterial::Certificate(c) => set.load_leaf(path, c),
        ExtractedMaterial::Certificates(v) => set.load_intermediates(path, v),
        ExtractedMaterial::PrivateKey(k) => set.load_key(path, k),
    }
}

/// Whether two sets hold the same components.
pub open spec fn same_components(a: CertSet, b: CertSet) -> bool {
    &&& a.id == b.id
    &&& a.title == b.title
    &&& a.leaf == b.leaf
    &&& a.leaf_path == b.leaf_path
    &&& a.intermediates == b.intermediates
    &&& a.key == b.key
    &&& a.key_path == b.key_path
}

/// Whether `after` is the set after it was verified where that is due, with the note `n`: a set that
/// is complete and was not verified as it is.
pub open spec fn verified_when_due(before: CertSet, now: Moment, after: CertSet, n: Option<Note>) -> bool {
    if before.complete() && before.verification is None {
        &&& same_components(before, after)
        &&& after.version == before.version + 1
        &&& exists|r: Result<String, String>| #[trigger]
            chain::verified(before, now, r) && (n matches Some(note) && notes(note, r)) && (
            after.verification matches Some(v) && v@ == match r {
                Ok(report) => report@,
                Err(e) => "verification error: "@ + e@,
            })
    } else {
        after == before && n is None
    }
}

/// Verifies a set as of the moment `now`, if that is due.
pub fn verify_when_due(set: &mut CertSet, now: Moment) -> (n: Option<Note>)
    requires
        old(set).version < u64::MAX,
    ensures
        verified_when_due(*old(set), now, *final(set), n),
{
    if !set.is_complete() || set.verification.is_some() {
        return None;
    }
    let result: Result<String, String> = chain::verify_set_at(set, now);
    let ghost r = result;
    assert(chain::verified(*set, now, r));
    let note: Note = note_of(&result);
    let text: String = match result {
        Ok(report) => report,
        Err(e) => {
            let mut out: String = "verification error: ".to_string();
            out.append(&e);
            out
        },
    };
    set.set_verification(text);
    assert(notes(note, r));
    Some(note)
}

/// What came of loading a file.
#[derive(Debug)]
pub enum Loaded {
    /// It was loaded: the line for the log, and what the user is told about the set.
    Done(String, Option<Note>),
    /// It was not: what the user is told.
    Failed(String),
}

/// The line for the log about a file that was loaded.
pub open spec fn loaded_line(slot: LoadSlot, title: Seq<char>, path: Seq<char>) -> Seq<char> {
    "loaded "@ + slot_text(slot) + " into "@ + title + " from "@ + path
}

/// Whether `after` and `r` are what comes of loading material, or the error in its place, into a set:
/// it is put into the set, and the set is verified if it is complete then.
pub open spec fn loads(
    before: CertSet,
    slot: LoadSlot,
    path: Seq<char>,
    material: Result<ExtractedMaterial, String>,
    now: Moment,
    after: CertSet,
    r: Loaded,
) -> bool {
    match material {
        Ok(m) => r matches Loaded::Done(line, note) && line@ == loaded_line(slot, before.title@, path)
            && exists|mid: CertSet| #[trigger]
            holds_material(before, path, m, mid) && verified_when_due(mid, now, after, note),
        Err(e) => after == before && (r matches Loaded::Failed(t) && t@ == "Could not load file:\n"@
            + e@),
    }
}

/// Loads material, or fails with the error in its place, as of the moment `now`.
pub fn load_at(
    set: &mut CertSet,
    slot: LoadSlot,
    path: &str,
    material: Result<ExtractedMaterial, String>,
    now: Moment,
) -> (r: Loaded)
    requires
        old(set).version < u64::MAX - 1,
    ensures
        loads(*old(set), slot, path@, material, now, *final(set), r),
{
    match material {
        Ok(m) => {
            let ghost before = *set;
            load_material(set, path, m);
            let ghost mid = *set;
            assert(holds_material(before, path@, m, mid));
            let mut line: String = "loaded ".to_string();
            line.append(slot_name(slot));
            line.append(" into ");
            line.append(&set.title);
            line.append(" from ");
            line.append(path);
            let note: Option<Note> = verify_when_due(set, now);
            assert(verified_when_due(mid, now, *set, note));
            Loaded::Done(line, note)
        },
        Err(e) => {
            let mut out: String = "Could not load file:\n".to_string();
            out.append(&e);
            Loaded::Failed(out)
        },
    }
}

/// Whether `after` are the directories that are remembered once a file for a slot was loaded, or could
/// not be: only a file that was loaded, and has a directory, changes them.
pub open spec fn remembers(
    before: Directories,
    slot: LoadSlot,
    directory: Option<Seq<char>>,
    r: Loaded,
    after: Directories,
) -> bool {
    if r is Done && directory is Some {
        before.noted(slot, directory->0, after)
    } else {
        after == before
    }
}

/// The contents of an optional text.
pub open spec fn str_option(o: Option<&str>) -> Option<Seq<char>> {
    match o {
        Some(s) => Some(s@),
        None => None,
    }
}

/// Loads a component of a set from a file with the given path and contents; an error in place of
/// the contents says why the file could not be read. The directory of a file that is loaded is
/// remembered.
pub fn load_component(
    set: &mut CertSet,
    directories: &mut Directories,
    slot: LoadSlot,
    path: &str,
    directory: Option<&str>,
    contents: Result<Vec<u8>, String>,
) -> (r: Loaded)
    requires
        old(set).version < u64::MAX - 1,
    ensures
        exists|now: Moment, material: Result<ExtractedMaterial, String>|
            is_extracted(contents, slot, material) && #[trigger] loads(
                *old(set),
                slot,
                path@,
                material,
                now,
                *final(set),
                r,
            ),
        remembers(*old(directories), slot, str_option(directory), r, *final(directories)),
{
    let ghost given = contents;
    let material: Result<ExtractedMaterial, String> = match contents {
        Ok(raw) => certs::extract_material(&raw, slot),
        Err(e) => Err(e),
    };
    let ghost m = material;
    assert(is_extracted(given, slot, m));
    let now: Moment = clock::now();
    let r: Loaded = load_at(set, slot, path, material, now);
    if let Loaded::Done(_, _) = &r {
        if let Some(d) = directory {
            directories.remember(slot, d);
        }
    }
    r
}

/// Whether `m` is the material for a slot in a file's contents, or the error in their place.
pub open spec fn is_extracted(
    contents: Result<Vec<u8>, String>,
    slot: LoadSlot,
    m: Result<ExtractedMaterial, String>,
) -> bool {
    match contents {
        Ok(raw) => exists|certs: Seq<Certificate>, key: Option<PrivateKey>| #[trigger]
            certs::gathered(raw@, certs, key) && certs::selected(certs, key, slot, m),
        Err(e) => m == Err::<ExtractedMaterial, String>(e),
    }
}

/// The error for a file that cannot be read.
pub open spec fn read_failure(path: Seq<char>, reason: Seq<char>) -> Seq<char> {
    "cannot read "@ + path + ": "@ + reason
}

/// The error for a file that cannot be read.
pub fn read_error(path: &str, reason: &str) -> (r: String)
    ensures
        r@ == read_failure(path@, reason@),
        r@ == "cannot read "@ + path@ + ": "@ + reason@,
{
    let mut out: String = "cannot read ".to_string();
    out.append(path);
    out.append(": ");
    out.append(reason);
    out
}

/// Whether `after` and `line` are what comes of verifying a set after startup: the report is kept and
/// its verdict logged; where there is no report, nothing happens.
pub open spec fn verified_at_start(
    before: CertSet,
    now: Moment,
    after: CertSet,
    line: Option<Seq<char>>,
) -> bool {
    if before.complete() && before.verification is None {
        exists|r: Result<String, String>| #[trigger]
            chain::verified(before, now, r) && match r {
                Ok(report) => {
                    &&& same_components(before, after)
                    &&& after.version == before.version + 1
                    &&& after.verification == Some(report)
                    &&& line == Some("verification: "@ + overall_of(report@))
                },
                Err(_) => after == before && line is None,
            }
    } else {
        after == before && line is None
    }
}

/// Verifies a set that was loaded at startup, as of the moment `now`.
pub fn verify_at_start(set: &mut CertSet, now: Moment) -> (r: Option<String>)
    requires
        old(set).version < u64::MAX,
    ensures
        verified_at_start(*old(set), now, *final(set), crate::crypto::text_option(r)),
{
    if !set.is_complete() || set.verification.is_some() {
        return None;
    }
    let result: Result<String, String> = chain::verify_set_at(set, now);
    assert(chain::verified(*set, now, result));
    match result {
        Ok(report) => {
            let mut line: String = "verification: ".to_string();
            line.append(&overall(&report));
            set.set_verification(report);
            Some(line)
        },
        Err(_) => None,
    }
}

/// Whether material is what startup loads for a slot: a certificate as the leaf, or a private key.
pub open spec fn fits(slot: LoadSlot, material: ExtractedMaterial) -> bool {
    match material {
        ExtractedMaterial::Certificate(_) => slot == LoadSlot::Leaf,
        ExtractedMaterial::PrivateKey(_) => slot == LoadSlot::Key,
        ExtractedMaterial::Certificates(_) => false,
    }
}

/// Whether `after` and `r` are what comes of loading material at startup: it is put into the set where
/// it fits, or a line for the log says why there is none. `shown` is the path as the log shows it.
pub open spec fn preloads(
    before: CertSet,
    slot: LoadSlot,
    path: Seq<char>,
    shown: Seq<char>,
    material: Result<ExtractedMaterial, String>,
    after: CertSet,
    r: Option<Seq<char>>,
) -> bool {
    match material {
        Ok(m) => r is None && if fits(slot, m) {
            holds_material(before, path, m, after)
        } else {
            after == before
        },
        Err(e) => after == before && r == Some(
            "failed to load "@ + (if slot == LoadSlot::Key {
                "key "@
            } else {
                "cert "@
            }) + shown + ": "@ + e@,
        ),
    }
}

/// Loads material at startup, or makes the line for the log that says why there is none.
pub fn preload(
    set: &mut CertSet,
    slot: LoadSlot,
    path: &str,
    shown: &str,
    material: Result<ExtractedMaterial, String>,
) -> (r: Option<String>)
    requires
        old(set).version < u64::MAX,
    ensures
        preloads(
            *old(set),
            slot,
            path@,
            shown@,
            material,
            *final(set),
            crate::crypto::text_option(r),
        ),
{
    match material {
        Ok(ExtractedMaterial::Certificate(c)) => {
            if slot == LoadSlot::Leaf {
                set.load_leaf(path, c);
            }
            None
        },
        Ok(ExtractedMaterial::PrivateKey(k)) => {
            if slot == LoadSlot::Key {
                set.load_key(path, k);
            }
            None
        },
        Ok(ExtractedMaterial::Certificates(_)) => None,
        Err(e) => {
            let mut line: String = "failed to load ".to_string();
            line.append(if slot == LoadSlot::Key { "key " } else { "cert " });
            line.append(shown);
            line.append(": ");
            line.append(&e);
            Some(line)
        },
    }
}

/// A file that is named at startup: its path, the path as the log shows it, and its contents or why
/// they cannot be read.
pub struct StartFile {
    pub path: String,
    pub shown: String,
    pub contents: Result<Vec<u8>, String>,
}

/// Whether `after` and `line` are what comes of loading a file at startup.
pub open spec fn file_preloads(
    before: CertSet,
    slot: LoadSlot,
    file: StartFile,
    after: CertSet,
    line: Option<Seq<char>>,
) -> bool {
    exists|m: Result<ExtractedMaterial, String>|
        is_extracted(file.contents, slot, m) && #[trigger] preloads(
            before,
            slot,
            file.path@,
            file.shown@,
            m,
            after,
            line,
        )
}

/// Whether a set goes through `states` as files are loaded into it one by one, with `lines` for the
/// log where a file is not loaded.
pub open spec fn preload_steps(
    states: Seq<CertSet>,
    slot: LoadSlot,
    files: Seq<StartFile>,
    lines: Seq<Option<Seq<char>>>,
) -> bool {
    &&& states.len() == files.len() + 1
    &&& lines.len() == files.len()
    &&& forall|i: int|
        #![trigger files[i]]
        0 <= i < files.len() ==> file_preloads(states[i], slot, files[i], states[i + 1], lines[i])
}

/// The lines that there are.
pub open spec fn present(lines: Seq<Option<Seq<char>>>) -> Seq<Seq<char>>
    decreases lines.len(),
{
    if lines.len() == 0 {
        Seq::empty()
    } else {
        match lines.last() {
            Some(line) => present(lines.drop_last()).push(line),
            None => present(lines.drop_last()),
        }
    }
}

/// Whether `after` and `log` are what comes of loading files in their order.
pub open spec fn files_preload(
    before: CertSet,
    slot: LoadSlot,
    files: Seq<StartFile>,
    after: CertSet,
    log: Seq<Seq<char>>,
) -> bool {
    exists|states: Seq<CertSet>, lines: Seq<Option<Seq<char>>>|
        #![trigger preload_steps(states, slot, files, lines)]
        preload_steps(states, slot, files, lines) && states.first() == before && states.last()
            == after && log == present(lines)
}

/// Loads the files named at startup for a slot, in their order. The result is what the log gets.
pub fn preload_files(set: &mut CertSet, slot: LoadSlot, files: Vec<StartFile>) -> (r: Vec<String>)
    requires
        old(set).version + files@.len() <= u64::MAX,
    ensures
        files_preload(*old(set), slot, files@, *final(set), text::texts(r@)),
        final(set).version <= old(set).version + files@.len(),
{
    let ghost all = files@;
    let ghost mut states: Seq<CertSet> = seq![*set];
    let ghost mut lines: Seq<Option<Seq<char>>> = Seq::empty();
    let mut log: Vec<String> = Vec::new();
    let mut rest: Vec<StartFile> = files;
    assert(text::texts(log@) =~= present(lines));
    assert(rest@ =~= all.skip(0));
    while rest.len() > 0
        invariant
            rest@.len() <= all.len(),
            rest@ == all.skip(all.len() - rest@.len()),
            set.version <= old(set).version + (all.len() - rest@.len()),
            old(set).version + all.len() <= u64::MAX,
            states.first() == *old(set),
            states.last() == *set,
            preload_steps(states, slot, all.take(all.len() - rest@.len()), lines),
            text::texts(log@) == present(lines),
        decreases rest.len(),
    {
        let ghost n = all.len() - rest@.len();
        let ghost before = *set;
        let file: StartFile = rest.remove(0);
        let ghost given = file;
        assert(given == all[n]);
        assert(rest@ =~= all.skip(n + 1));
        let material: Result<ExtractedMaterial, String> = match file.contents {
            Ok(raw) => certs::extract_material(&raw, slot),
            Err(e) => Err(e),
        };
        let ghost m = material;
        assert(is_extracted(given.contents, slot, m));
        let line: Option<String> = preload(set, slot, &file.path, &file.shown, material);
        let ghost shown = crate::crypto::text_option(line);
        proof {
            assert(file_preloads(before, slot, given, *set, shown));
            let longer = lines.push(shown);
            let further = states.push(*set);
            let files_done = all.take(n + 1);
            assert(longer.drop_last() =~= lines);
            assert forall|i: int|
                #![trigger files_done[i]]
                0 <= i < files_done.len() implies file_preloads(
                further[i],
                slot,
                files_done[i],
                further[i + 1],
                longer[i],
            ) by {
                if i < n {
                    assert(all.take(n)[i] == files_done[i]);
                }
            }
            states = further;
            lines = longer;
        }
        if let Some(l) = line {
            text::push_text(&mut log, l);
        }
    }
    assert(all.take(all.len() as int) =~= all);
    log
}

/// Whether `after` and `log` are what comes of a startup that names files: the certificates are loaded
/// first and the keys after them, and a set that is then complete is verified.
pub open spec fn starts(
    before: CertSet,
    leaves: Seq<StartFile>,
    keys: Seq<StartFile>,
    now: Moment,
    after: CertSet,
    log: Seq<Seq<char>>,
) -> bool {
    exists|
        one: CertSet,
        two: CertSet,
        log1: Seq<Seq<char>>,
        log2: Seq<Seq<char>>,
        line: Option<Seq<char>>,
    |
        #![trigger
            files_preload(before, LoadSlot::Leaf, leaves, one, log1),
            files_preload(one, LoadSlot::Key, keys, two, log2),
            verified_at_start(two, now, after, line)]
        files_preload(before, LoadSlot::Leaf, leaves, one, log1) && files_preload(
            one,
            LoadSlot::Key,
            keys,
            two,
            log2,
        ) && verified_at_start(two, now, after, line) && log == log1 + log2 + present(seq![line])
}

/// Loads the files that are named at startup and verifies the set, as of the moment `now`. The
/// result is what the log gets.
pub fn start_at(
    set: &mut CertSet,
    leaves: Vec<StartFile>,
    keys: Vec<StartFile>,
    now: Moment,
) -> (r: Vec<String>)
    requires
        old(set).version + leaves@.len() + keys@.len() < u64::MAX,
    ensures
        starts(*old(set), leaves@, keys@, now, *final(set), text::texts(r@)),
{
    let ghost (certs, privates) = (leaves@, keys@);
    let ghost before = *set;
    let mut log: Vec<String> = preload_files(set, LoadSlot::Leaf, leaves);
    let ghost one = *set;
    let ghost log1 = text::texts(log@);
    let mut more: Vec<String> = preload_files(set, LoadSlot::Key, keys);
    let ghost two = *set;
    let ghost log2 = text::texts(more@);
    log.append(&mut more);
    assert(text::texts(log@) =~= log1 + log2);
    let line: Option<String> = verify_at_start(set, now);
    let ghost shown = crate::crypto::text_option(line);
    assert(seq![shown].drop_last() =~= Seq::empty());
    reveal_with_fuel(present, 2);
    if let Some(l) = line {
        text::push_text(&mut log, l);
    }
    assert(text::texts(log@) =~= log1 + log2 + present(seq![shown]));
    assert(files_preload(before, LoadSlot::Leaf, certs, one, log1));
    assert(files_preload(one, LoadSlot::Key, privates, two, log2));
    assert(verified_at_start(two, now, *set, shown));
    log
}

/// Loads the files that are named at startup and verifies the set, as of some moment.
pub fn start(set: &mut CertSet, leaves: Vec<StartFile>, keys: Vec<StartFile>) -> (r: Vec<String>)
    requires
        old(set).version + leaves@.len() + keys@.len() < u64::MAX,
    ensures
        exists|now: Moment| #[trigger]
            starts(*old(set), leaves@, keys@, now, *final(set), text::texts(r@)),
{
    start_at(set, leaves, keys, clock::now())
}

/// A set that is complete after a file was loaded into it has been verified as it is: its
/// verification is there, and the user is told about it.
pub proof fn complete_sets_are_verified(
    before: CertSet,
    slot: LoadSlot,
    path: Seq<char>,
    material: ExtractedMaterial,
    now: Moment,
    after: CertSet,
    r: Loaded,
)
    requires
        loads(before, slot, path, Ok(material), now, after, r),
        after.complete(),
    ensures
        after.verification is Some,
        r matches Loaded::Done(_, note) && note is Some,
{
}

/// Every dialog has a directory of its own: after a file for one slot was loaded and then one for
/// another, each dialog starts where its own file was. A load that fails changes no directory.
pub proof fn one_directory_per_dialog(
    one: Directories,
    first: LoadSlot,
    a: Seq<char>,
    done: Loaded,
    two: Directories,
    second: LoadSlot,
    b: Seq<char>,
    later: Loaded,
    three: Directories,
)
    requires
        first != second,
        remembers(one, first, Some(a), done, two),
        remembers(two, second, Some(b), later, three),
        done is Done,
    ensures
        crate::crypto::text_option(three.begin(first)) == Some(a),
        later is Done ==> crate::crypto::text_option(three.begin(second)) == Some(b),
        later is Failed ==> three == two,
{
}

/// A file that cannot be loaded changes nothing.
pub proof fn failures_change_nothing(
    before: CertSet,
    slot: LoadSlot,
    path: Seq<char>,
    error: String,
    now: Moment,
    after: CertSet,
    r: Loaded,
)
    requires
        loads(before, slot, path, Err(error), now, after, r),
    ensures
        after == before,
        r is Failed,
{
}

proof fn lemma_overall_after(before: Seq<Seq<char>>, rest: Seq<Seq<char>>)
    requires
        forall|i: int| 0 <= i < before.len() ==> !text::begins(#[trigger] before[i], "Overall"@),
    ensures
        first_overall(before + rest) == first_overall(rest),
    decreases before.len(),
{
    if before.len() == 0 {
        assert(before + rest =~= rest);
    } else {
        assert((before + rest)[0] == before[0]);
        assert((before + rest).drop_first() =~= before.drop_first() + rest);
        assert forall|i: int| 0 <= i < before.drop_first().len() implies !text::begins(
            #[trigger] before.drop_first()[i],
            "Overall"@,
        ) by {
            assert(before.drop_first()[i] == before[i + 1]);
        }
        lemma_overall_after(before.drop_first(), rest);
    }
}

proof fn lemma_first_line(line: Seq<char>, after: Seq<char>)
    requires
        !line.contains('\n'),
        line.len() > 0,
        line.last() != '\r',
    ensures
        text::lines(line + seq!['\n'] + after) == seq![line] + text::lines(after),
{
    let s = line + seq!['\n'] + after;
    let n = line.len() as int;
    assert forall|j: int| 0 <= j < n implies s[j] != '\n' by {
        assert(s[j] == line[j]);
        assert(line.contains(line[j]));
    }
    assert(s[n] == '\n');
    text::lemma_line_length(s, n);
    assert(s.take(n) =~= line);
    assert(s.skip(n + 1) =~= after);
    assert(text::without_return(line) == line);
}

/// The verdict of a report is what follows the label on the first line that begins with `Overall`.
pub proof fn verdict_is_found(before: Seq<char>, verdict: Seq<char>, after: Seq<char>)
    requires
        before.len() == 0 || before.last() == '\n',
        forall|i: int|
            0 <= i < text::lines(before).len() ==> !text::begins(
                #[trigger] text::lines(before)[i],
                "Overall"@,
            ),
        verdict.len() > 0,
        !verdict.contains('\n'),
        verdict.last() != '\r',
        verdict[0] != 'O',
    ensures
        overall_of(before + ("Overall    : "@ + verdict) + seq!['\n'] + after) == verdict,
{
    reveal_strlit("Overall");
    reveal_strlit("Overall    : ");
    let label = "Overall    : "@;
    let line = label + verdict;
    let rest = line + seq!['\n'] + after;
    let whole = before + line + seq!['\n'] + after;
    assert(whole =~= before + rest);
    assert forall|i: int| 0 <= i < line.len() implies line[i] != '\n' by {
        if i >= label.len() {
            assert(line[i] == verdict[i - label.len()]);
            assert(verdict.contains(verdict[i - label.len()]));
        }
    }
    lemma_first_line(line, after);
    if before.len() > 0 {
        text::lemma_lines_joined(before, rest);
    } else {
        assert(whole =~= rest);
        assert(text::lines(before) =~= Seq::empty());
        assert(text::lines(before) + text::lines(rest) =~= text::lines(rest));
    }
    lemma_overall_after(text::lines(before), text::lines(rest));
    let found = seq![line] + text::lines(after);
    assert(found[0] == line);
    assert(line.subrange(0, 7) =~= "Overall"@);
    assert(first_overall(found) == line);
    assert(line.subrange(0, label.len() as int) =~= label);
    assert(line.skip(label.len() as int) =~= verdict);
    assert(!text::begins(verdict, label)) by {
        if text::begins(verdict, label) {
            assert(verdict.subrange(0, label.len() as int)[0] == 'O');
        }
    }
    assert(text::without_leading(verdict, label) == verdict);
    assert(text::begins(line, label));
    assert(text::without_leading(line, label) == verdict);
}

proof fn lemma_failing(t: Seq<char>)
    requires
        text::within(t, "\nOverall    : FAIL ("@),
    ensures
        text::within(t, "FAIL"@),
{
    reveal_strlit("\nOverall    : FAIL (");
    reveal_strlit("FAIL");
    let long = "\nOverall    : FAIL ("@;
    let i = choose|i: int|
        0 <= i && i + long.len() <= t.len() && #[trigger] t.subrange(i, i + long.len()) == long;
    let j = i + 14;
    assert(t.subrange(j, j + 4) =~= long.subrange(14, 18));
    assert(long.subrange(14, 18) =~= "FAIL"@);
}

/// The user is told that a verification was completed exactly if there is a report and the word FAIL
/// stands nowhere in it; and that only where the key belongs to the leaf and every certificate of the
/// chain is in date. A set that nothing speaks for is never good news.
pub proof fn good_news_is_true(set: CertSet, now: Moment, r: Result<String, String>, n: Note)
    requires
        chain::verified(set, now, r),
        notes(n, r),
    ensures
        n.good == (r matches Ok(report) && !text::within(report@, "FAIL"@)),
        n.good ==> chain::stands(set, now),
        text::begins(n.text@, "\x03Verification completed\n\n"@) == n.good,
        text::begins(n.text@, "\x03Verification FAILED\n\n"@) == !n.good,
        r matches Ok(report) ==> text::ends(n.text@, overall_of(report@)),
        r matches Err(e) ==> text::ends(n.text@, "verification error: "@ + e@),
{
    if let Ok(report) = r {
        chain::reports_end_with_verdict(set, now, r);
        if text::within(report@, "FAIL"@) {
            text::lemma_occurs(report@, "FAIL"@);
        }
        text::search_finds_first(report@, "FAIL"@, 0);
        if !chain::stands(set, now) {
            lemma_failing(report@);
        }
        lemma_note_text(n.good, overall_of(report@));
    } else {
        lemma_note_text(false, "verification error: "@ + r->Err_0@);
    }
}

proof fn lemma_note_text(good: bool, summary: Seq<char>)
    ensures
        text::begins(note_text(good, summary), "\x03Verification completed\n\n"@) == good,
        text::begins(note_text(good, summary), "\x03Verification FAILED\n\n"@) == !good,
        text::ends(note_text(good, summary), summary),
{
    reveal_strlit("\x03Verification ");
    reveal_strlit("completed");
    reveal_strlit("FAILED");
    reveal_strlit("\n\n");
    reveal_strlit("\x03Verification completed\n\n");
    reveal_strlit("\x03Verification FAILED\n\n");
    let t = note_text(good, summary);
    let yes = "\x03Verification completed\n\n"@;
    let no = "\x03Verification FAILED\n\n"@;
    assert(t.subrange(t.len() - summary.len(), t.len() as int) =~= summary);
    if good {
        assert(t.subrange(0, yes.len() as int) =~= yes);
        assert(t[14] == 'c');
        if text::begins(t, no) {
            assert(t.subrange(0, no.len() as int)[14] == 'F');
        }
    } else {
        assert(t.subrange(0, no.len() as int) =~= no);
        assert(t[14] == 'F');
        if text::begins(t, yes) {
            assert(t.subrange(0, yes.len() as int)[14] == 'c');
        }
    }
}

/// Material goes to the component that it is for: a certificate replaces the leaf, a private key the
/// private key, and further certificates follow the intermediates that there are, in their order. The
/// other components stay, and the set has to be verified anew.
pub proof fn material_finds_its_place(
    before: CertSet,
    path: Seq<char>,
    material: ExtractedMaterial,
    after: CertSet,
)
    requires
        holds_material(before, path, material, after),
    ensures
        after.verification is None,
        after.version > before.version,
        after.id == before.id,
        after.title@ == before.title@,
        material matches ExtractedMaterial::Certificate(c) ==> after.leaf == Some(c)
            && crate::crypto::text_option(after.leaf_path) == Some(path),
        !(material is Certificate) ==> after.leaf == before.leaf && after.leaf_path
            == before.leaf_path,
        material matches ExtractedMaterial::PrivateKey(k) ==> after.key == Some(k)
            && crate::crypto::text_option(after.key_path) == Some(path),
        !(material is PrivateKey) ==> after.key == before.key && after.key_path == before.key_path,
        forall|i: int|
            0 <= i < before.intermediates@.len() ==> i < after.intermediates@.len() && (
            #[trigger] after.intermediates@[i]) == before.intermediates@[i],
        !(material is Certificates) ==> after.intermediates@ == before.intermediates@,
        material matches ExtractedMaterial::Certificates(v) ==> after.intermediates@.len()
            == before.intermediates@.len() + v@.len() && forall|i: int|
            0 <= i < v@.len() ==> {
                let added = #[trigger] after.intermediates@[before.intermediates@.len() + i];
                added.1 == v@[i] && added.0@ == path
            },
{
    let n = before.intermediates@.len() as int;
    if material is Certificates {
        assert forall|i: int| 0 <= i < n implies i < after.intermediates@.len() && (
        #[trigger] after.intermediates@[i]) == before.intermediates@[i] by {
            assert(after.intermediates@.take(n)[i] == before.intermediates@[i]);
        }
    }
}

/// A set with a leaf and a private key that was not verified as it is gets verified: the report, or
/// why there is none, is kept and the user is told. Any other set is left alone.
pub proof fn verification_is_kept(before: CertSet, now: Moment, after: CertSet, n: Option<Note>)
    requires
        verified_when_due(before, now, after, n),
    ensures
        ({
            let due = before.leaf is Some && before.key is Some && before.verification is None;
            &&& (n is Some) == due
            &&& !due ==> after == before
            &&& due ==> after.version > before.version && after.leaf == before.leaf && after.key
                == before.key && after.intermediates@ == before.intermediates@
            &&& due ==> exists|r: Result<String, String>| #[trigger]
                chain::verified(before, now, r) && (n matches Some(note) && notes(note, r))
                    && after.verification is Some && match r {
                    Ok(report) => after.verification->0@ == report@,
                    Err(e) => text::ends(after.verification->0@, e@),
                }
        }),
{
    if before.complete() && before.verification is None {
        let r = choose|r: Result<String, String>| #[trigger]
            chain::verified(before, now, r) && (n matches Some(note) && notes(note, r)) && (
            after.verification matches Some(v) && v@ == match r {
                Ok(report) => report@,
                Err(e) => "verification error: "@ + e@,
            });
        if let Err(e) = r {
            let t = after.verification->0@;
            assert(t.subrange(t.len() - e@.len(), t.len() as int) =~= e@);
        }
        assert(chain::verified(before, now, r));
    }
}

/// The log names what was loaded, into which set and from where; a failure is told with its reason.
pub proof fn loading_is_told(
    before: CertSet,
    slot: LoadSlot,
    path: Seq<char>,
    material: Result<ExtractedMaterial, String>,
    now: Moment,
    after: CertSet,
    r: Loaded,
)
    requires
        loads(before, slot, path, material, now, after, r),
    ensures
        (r is Done) == (material is Ok),
        r matches Loaded::Done(line, _) ==> text::begins(line@, "loaded "@ + slot_text(slot))
            && text::within(line@, before.title@) && text::ends(line@, " from "@ + path),
        r matches Loaded::Failed(t) ==> text::ends(t@, material->Err_0@),
{
    match r {
        Loaded::Done(line, _) => {
            let head = "loaded "@ + slot_text(slot);
            let tail = " from "@ + path;
            let t = line@;
            assert(t =~= head + " into "@ + before.title@ + tail);
            assert(t.subrange(0, head.len() as int) =~= head);
            assert(t.subrange(t.len() - tail.len(), t.len() as int) =~= tail);
            assert(t =~= (head + " into "@) + before.title@ + tail);
            text::lemma_within(head + " into "@, before.title@, tail);
        },
        Loaded::Failed(text) => {
            let e = material->Err_0@;
            let t = text@;
            assert(t.subrange(t.len() - e.len(), t.len() as int) =~= e);
        },
    }
}

proof fn lemma_leaf_stays(states: Seq<CertSet>, files: Seq<StartFile>, lines: Seq<Option<Seq<char>>>)
    requires
        preload_steps(states, LoadSlot::Key, files, lines),
    ensures
        states.last().leaf == states.first().leaf,
        states.last().intermediates@ == states.first().intermediates@,
    decreases files.len(),
{
    if files.len() > 0 {
        let n = files.len() as int;
        let fewer = files.drop_last();
        let earlier = states.drop_last();
        let told = lines.drop_last();
        assert forall|i: int| #![trigger fewer[i]] 0 <= i < fewer.len() implies file_preloads(
            earlier[i],
            LoadSlot::Key,
            fewer[i],
            earlier[i + 1],
            told[i],
        ) by {
            assert(fewer[i] == files[i]);
        }
        lemma_leaf_stays(earlier, fewer, told);
        assert(file_preloads(states[n - 1], LoadSlot::Key, files[n - 1], states[n], lines[n - 1]));
        let m = choose|m: Result<ExtractedMaterial, String>|
            is_extracted(files[n - 1].contents, LoadSlot::Key, m) && #[trigger] preloads(
                states[n - 1],
                LoadSlot::Key,
                files[n - 1].path@,
                files[n - 1].shown@,
                m,
                states[n],
                lines[n - 1],
            );
        assert(earlier.first() == states.first());
        assert(earlier.last() == states[n - 1]);
    }
}

proof fn lemma_last_file(
    before: CertSet,
    slot: LoadSlot,
    files: Seq<StartFile>,
    after: CertSet,
    log: Seq<Seq<char>>,
) -> (m: Result<ExtractedMaterial, String>)
    requires
        files_preload(before, slot, files, after, log),
        files.len() > 0,
    ensures
        is_extracted(files.last().contents, slot, m),
        slot == LoadSlot::Leaf ==> (m matches Ok(ExtractedMaterial::Certificate(c)) ==> after.leaf
            == Some(c)),
        slot == LoadSlot::Key ==> (m matches Ok(ExtractedMaterial::PrivateKey(k)) ==> after.key
            == Some(k)),
        m matches Err(e) ==> log.len() > 0 && text::ends(log.last(), e@),
{
    let (states, lines) = choose|states: Seq<CertSet>, lines: Seq<Option<Seq<char>>>|
        #![trigger preload_steps(states, slot, files, lines)]
        preload_steps(states, slot, files, lines) && states.first() == before && states.last()
            == after && log == present(lines);
    let n = files.len() as int;
    assert(file_preloads(states[n - 1], slot, files[n - 1], states[n], lines[n - 1]));
    let m = choose|m: Result<ExtractedMaterial, String>|
        is_extracted(files[n - 1].contents, slot, m) && #[trigger] preloads(
            states[n - 1],
            slot,
            files[n - 1].path@,
            files[n - 1].shown@,
            m,
            states[n],
            lines[n - 1],
        );
    if let Err(e) = m {
        let line = lines.last()->0;
        assert(line.subrange(line.len() - e@.len(), line.len() as int) =~= e@);
    }
    m
}

/// Of the files that are named at startup the last certificate and the last private key stay: they are
/// what the set holds then. Why the last file could not be loaded is told in the log.
pub proof fn last_files_stay(
    before: CertSet,
    leaves: Seq<StartFile>,
    keys: Seq<StartFile>,
    now: Moment,
    after: CertSet,
    log: Seq<Seq<char>>,
)
    requires
        starts(before, leaves, keys, now, after, log),
    ensures
        leaves.len() > 0 ==> exists|m: Result<ExtractedMaterial, String>| #[trigger]
            is_extracted(leaves.last().contents, LoadSlot::Leaf, m) && (m matches Ok(
                ExtractedMaterial::Certificate(c),
            ) ==> after.leaf == Some(c)) && (m matches Err(e) ==> exists|i: int|
                0 <= i < log.len() && text::ends(#[trigger] log[i], e@)),
        keys.len() > 0 ==> exists|m: Result<ExtractedMaterial, String>| #[trigger]
            is_extracted(keys.last().contents, LoadSlot::Key, m) && (m matches Ok(
                ExtractedMaterial::PrivateKey(k),
            ) ==> after.key == Some(k)) && (m matches Err(e) ==> exists|i: int|
                0 <= i < log.len() && text::ends(#[trigger] log[i], e@)),
        leaves.len() == 0 ==> after.leaf == before.leaf,
        after.intermediates@ == before.intermediates@,
{
    let (one, two, log1, log2, line) = choose|
        one: CertSet,
        two: CertSet,
        log1: Seq<Seq<char>>,
        log2: Seq<Seq<char>>,
        line: Option<Seq<char>>,
    |
        #![trigger
            files_preload(before, LoadSlot::Leaf, leaves, one, log1),
            files_preload(one, LoadSlot::Key, keys, two, log2),
            verified_at_start(two, now, after, line)]
        files_preload(before, LoadSlot::Leaf, leaves, one, log1) && files_preload(
            one,
            LoadSlot::Key,
            keys,
            two,
            log2,
        ) && verified_at_start(two, now, after, line) && log == log1 + log2 + present(seq![line]);
    let (states, lines) = choose|states: Seq<CertSet>, lines: Seq<Option<Seq<char>>>|
        #![trigger preload_steps(states, LoadSlot::Key, keys, lines)]
        preload_steps(states, LoadSlot::Key, keys, lines) && states.first() == one && states.last()
            == two && log2 == present(lines);
    lemma_leaf_stays(states, keys, lines);
    let (firsts, told) = choose|states: Seq<CertSet>, lines: Seq<Option<Seq<char>>>|
        #![trigger preload_steps(states, LoadSlot::Leaf, leaves, lines)]
        preload_steps(states, LoadSlot::Leaf, leaves, lines) && states.first() == before
            && states.last() == one && log1 == present(lines);
    lemma_rest_stays(firsts, leaves, told);
    assert(after.leaf == two.leaf && after.key == two.key && after.intermediates
        == two.intermediates);
    if leaves.len() > 0 {
        let m = lemma_last_file(before, LoadSlot::Leaf, leaves, one, log1);
        assert(is_extracted(leaves.last().contents, LoadSlot::Leaf, m));
        if m is Err {
            assert(log[log1.len() - 1] == log1.last());
        }
    }
    if keys.len() > 0 {
        let m = lemma_last_file(one, LoadSlot::Key, keys, two, log2);
        assert(is_extracted(keys.last().contents, LoadSlot::Key, m));
        if m is Err {
            assert(log[log1.len() + log2.len() - 1] == log2.last());
        }
    }
}

proof fn lemma_rest_stays(states: Seq<CertSet>, files: Seq<StartFile>, lines: Seq<Option<Seq<char>>>)
    requires
        preload_steps(states, LoadSlot::Leaf, files, lines),
    ensures
        states.last().key == states.first().key,
        states.last().intermediates@ == states.first().intermediates@,
        files.len() == 0 ==> states.last() == states.first(),
    decreases files.len(),
{
    if files.len() > 0 {
        let n = files.len() as int;
        let fewer = files.drop_last();
        let earlier = states.drop_last();
        let told = lines.drop_last();
        assert forall|i: int| #![trigger fewer[i]] 0 <= i < fewer.len() implies file_preloads(
            earlier[i],
            LoadSlot::Leaf,
            fewer[i],
            earlier[i + 1],
            told[i],
        ) by {
            assert(fewer[i] == files[i]);
        }
        lemma_rest_stays(earlier, fewer, told);
        assert(file_preloads(states[n - 1], LoadSlot::Leaf, files[n - 1], states[n], lines[n - 1]));
        let m = choose|m: Result<ExtractedMaterial, String>|
            is_extracted(files[n - 1].contents, LoadSlot::Leaf, m) && #[trigger] preloads(
                states[n - 1],
                LoadSlot::Leaf,
                files[n - 1].path@,
                files[n - 1].shown@,
                m,
                states[n],
                lines[n - 1],
            );
        assert(earlier.first() == states.first());
        assert(earlier.last() == states[n - 1]);
    }
}

/// The verdict on a set that is complete after startup is logged with the report; without a report, or
/// for any other set, nothing happens.
pub proof fn startup_tells_verdict(
    before: CertSet,
    now: Moment,
    after: CertSet,
    line: Option<Seq<char>>,
)
    requires
        verified_at_start(before, now, after, line),
    ensures
        line matches Some(l) ==> after.verification is Some && chain::verified(
            before,
            now,
            Ok(after.verification->0),
        ) && l == "verification: "@ + overall_of(after.verification->0@) && after.version
            > before.version && after.leaf == before.leaf && after.key == before.key,
        line is None ==> after == before,
        line is None && before.leaf is Some && before.key is Some && before.verification is None
            ==> exists|r: Result<String, String>| #[trigger]
            chain::verified(before, now, r) && r is Err,
{
}

/// A file that cannot be loaded at startup is told in the log: whether it was to be a certificate or a
/// key, which file, and why.
pub proof fn startup_tells_failures(
    before: CertSet,
    slot: LoadSlot,
    path: Seq<char>,
    shown: Seq<char>,
    error: String,
    after: CertSet,
    r: Option<Seq<char>>,
)
    requires
        preloads(before, slot, path, shown, Err(error), after, r),
    ensures
        after == before,
        r is Some,
        slot == LoadSlot::Key ==> text::begins(r->0, "failed to load key "@ + shown),
        slot != LoadSlot::Key ==> text::begins(r->0, "failed to load cert "@ + shown),
        text::ends(r->0, ": "@ + error@),
{
    reveal_strlit("failed to load ");
    reveal_strlit("key ");
    reveal_strlit("cert ");
    reveal_strlit("failed to load key ");
    reveal_strlit("failed to load cert ");
    let kind = if slot == LoadSlot::Key {
        "key "@
    } else {
        "cert "@
    };
    let start = if slot == LoadSlot::Key {
        "failed to load key "@
    } else {
        "failed to load cert "@
    };
    assert("failed to load "@ + kind =~= start);
    let t = r->0;
    let tail = ": "@ + error@;
    let front = start + shown;
    assert(t =~= front + tail);
    assert(t.subrange(0, front.len() as int) =~= front);
    assert(t.subrange(t.len() - tail.len(), t.len() as int) =~= tail);
}

/// What startup does not load: material that is not for the slot, and intermediates.
pub proof fn startup_loads_what_fits(
    before: CertSet,
    slot: LoadSlot,
    path: Seq<char>,
    shown: Seq<char>,
    material: ExtractedMaterial,
    after: CertSet,
    r: Option<Seq<char>>,
)
    requires
        preloads(before, slot, path, shown, Ok(material), after, r),
    ensures
        r is None,
        slot == LoadSlot::Leaf ==> (material matches ExtractedMaterial::Certificate(c) ==> after.leaf
            == Some(c) && after.key == before.key),
        slot == LoadSlot::Key ==> (material matches ExtractedMaterial::PrivateKey(k) ==> after.key
            == Some(k) && after.leaf == before.leaf),
        slot != LoadSlot::Leaf && material is Certificate ==> after == before,
        slot != LoadSlot::Key && material is PrivateKey ==> after == before,
        material is Certificates ==> after == before,
{
}

/// A dialog for a component that no file was loaded for yet starts where the latest file of any component
/// was.
pub proof fn dialogs_start_at_latest(
    before: Directories,
    slot: LoadSlot,
    directory: Seq<char>,
    done: Loaded,
    after: Directories,
    other: LoadSlot,
)
    requires
        remembers(before, slot, Some(directory), done, after),
        done is Done,
        before.own(other) is None,
    ensures
        crate::crypto::text_option(after.begin(other)) == Some(directory),
{
}

/// A dialog says what is to be opened, and the log calls it alike: only for the leaf the leaf, only for
/// intermediates these, only for the private key the key.
pub proof fn titles_tell_components(slot: LoadSlot)
    ensures
        text::within(title_for(slot), "leaf"@) == (slot == LoadSlot::Leaf),
        text::within(title_for(slot), "Intermediate"@) == (slot == LoadSlot::Intermediates),
        text::within(title_for(slot), "Private Key"@) == (slot == LoadSlot::Key),
        (slot_text(slot) == "certificate"@) == (slot == LoadSlot::Leaf),
        (slot_text(slot) == "intermediate(s)"@) == (slot == LoadSlot::Intermediates),
        (slot_text(slot) == "private key"@) == (slot == LoadSlot::Key),
{
    reveal_strlit("certificate");
    reveal_strlit("intermediate(s)");
    reveal_strlit("private key");
    assert("certificate"@[0] == 'c' && "intermediate(s)"@[0] == 'i' && "private key"@[0] == 'p');
    lemma_title_words();
}

proof fn lemma_title_words()
    ensures
        text::within("Open Certificate (leaf)"@, "leaf"@),
        text::within("Open Intermediate Certificate(s)"@, "Intermediate"@),
        text::within("Open Private Key"@, "Private Key"@),
        !text::within("Open Intermediate Certificate(s)"@, "leaf"@),
        !text::within("Open Private Key"@, "leaf"@),
        !text::within("Open Certificate (leaf)"@, "Intermediate"@),
        !text::within("Open Private Key"@, "Intermediate"@),
        !text::within("Open Certificate (leaf)"@, "Private Key"@),
        !text::within("Open Intermediate Certificate(s)"@, "Private Key"@),
{
    reveal_strlit("Open Certificate (leaf)");
    reveal_strlit("Open Intermediate Certificate(s)");
    reveal_strlit("Open Private Key");
    reveal_strlit("leaf");
    reveal_strlit("Intermediate");
    reveal_strlit("Private Key");
    let one = "Open Certificate (leaf)"@;
    let two = "Open Intermediate Certificate(s)"@;
    let three = "Open Private Key"@;
    let i: int = 18;
    assert(one.subrange(i, i + "leaf"@.len()) =~= "leaf"@);
    let j: int = 5;
    assert(two.subrange(j, j + "Intermediate"@.len()) =~= "Intermediate"@);
    assert(three.subrange(j, j + "Private Key"@.len()) =~= "Private Key"@);
    lemma_lacks(two, "leaf"@, 'l');
    lemma_lacks(three, "leaf"@, 'l');
    lemma_lacks(one, "Intermediate"@, 'I');
    lemma_lacks(three, "Intermediate"@, 'I');
    lemma_lacks(one, "Private Key"@, 'P');
    lemma_lacks(two, "Private Key"@, 'P');
}

proof fn lemma_lacks(t: Seq<char>, s: Seq<char>, c: char)
    requires
        s.len() > 0,
        s[0] == c,
        forall|i: int| 0 <= i < t.len() ==> #[trigger] t[i] != c,
    ensures
        !text::within(t, s),
{
    if text::within(t, s) {
        let i = choose|i: int|
            0 <= i && i + s.len() <= t.len() && #[trigger] t.subrange(i, i + s.len()) == s;
        assert(t.subrange(i, i + s.len())[0] == t[i]);
    }
}

/// The error for a file that cannot be read names the file and ends with the reason.
pub proof fn read_failures_are_told(path: Seq<char>, reason: Seq<char>)
    ensures
        text::begins(read_failure(path, reason), "cannot read "@ + path),
        text::ends(read_failure(path, reason), reason),
{
    let t = read_failure(path, reason);
    let start = "cannot read "@ + path;
    assert(t.subrange(0, start.len() as int) =~= start);
    assert(t.subrange(t.len() - reason.len(), t.len() as int) =~= reason);
}

} // verus!
