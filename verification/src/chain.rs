//! Verification of certificate sets: chain, private key and validity windows.
use vstd::prelude::*;
use vstd::set_lib::*;
use vstd::string::*;
use crate::certs::CertSet;
use crate::clock;
use crate::clock::Moment;
use crate::crypto;
use crate::crypto::{Certificate, PrivateKey};
use crate::report;
use crate::text;

verus! {

/// A line of the log that building a chain keeps.
pub enum LogLine {
    /// This text.
    Text(Seq<char>),
    /// That the signature could not be tested with the key of this candidate, and why.
    Untested(int),
}

/// Where the climb from a leaf certificate ends.
pub enum End {
    /// At a certificate that is signed with its own key.
    Root,
    /// At one whose issuer is not among the intermediates.
    NoIssuer,
    /// At one for which this candidate's key had to be read and could not be.
    BadKey(int),
}

/// The climb from a leaf certificate: the intermediates it went through, where it ended, and the
/// log.
pub struct Climb {
    pub path: Seq<int>,
    pub end: End,
    pub log: Seq<LogLine>,
}

/// Whether a certificate is signed with its own key.
pub open spec fn self_signed(c: Certificate) -> bool {
    c.key is Ok && crypto::x509_signed_by(c.der@, c.der@) == Some(true)
}

/// Whether the search for the issuer of `last` stops at a candidate: it is not on the path yet, and
/// its key made the signature of `last` or cannot be read.
pub open spec fn stops_at(
    last: Certificate,
    ints: Seq<(String, Certificate)>,
    path: Seq<int>,
    i: int,
) -> bool {
    !path.contains(i) && (ints[i].1.key is Err || crypto::x509_signed_by(last.der@, ints[i].1.der@)
        == Some(true))
}

/// The first candidate, `from` or later, at which the search for the issuer of `last` stops.
pub open spec fn stop(
    last: Certificate,
    ints: Seq<(String, Certificate)>,
    path: Seq<int>,
    from: int,
) -> Option<int>
    decreases ints.len() - from,
{
    if from < 0 || from >= ints.len() {
        None
    } else if stops_at(last, ints, path, from) {
        Some(from)
    } else {
        stop(last, ints, path, from + 1)
    }
}

/// The candidates, from `from` up to where the search stops, with whose keys the signature of
/// `last` could not be tested.
pub open spec fn untested(
    last: Certificate,
    ints: Seq<(String, Certificate)>,
    path: Seq<int>,
    from: int,
) -> Seq<LogLine>
    decreases ints.len() - from,
{
    if from < 0 || from >= ints.len() || stops_at(last, ints, path, from) {
        Seq::empty()
    } else if !path.contains(from) && crypto::x509_signed_by(last.der@, ints[from].1.der@) is None {
        seq![LogLine::Untested(from)] + untested(last, ints, path, from + 1)
    } else {
        untested(last, ints, path, from + 1)
    }
}

/// The line that says who signed what.
pub open spec fn signed_line(last: Certificate, issuer: Certificate) -> Seq<char> {
    "sig OK: ["@ + report::short_name(last.subject@) + "] signed by ["@ + report::short_name(
        issuer.subject@,
    ) + "]"@
}

/// The line that says that an issuer is missing.
pub open spec fn no_issuer_line(last: Certificate) -> Seq<char> {
    "no issuer found for ["@ + report::short_name(last.subject@) + "] among loaded intermediates"@
}

/// The certificates of a chain: the leaf, and the intermediates on the path.
pub open spec fn elements(
    leaf: Certificate,
    ints: Seq<(String, Certificate)>,
    path: Seq<int>,
) -> Seq<Certificate> {
    Seq::new(
        path.len() + 1,
        |k: int|
            if k == 0 {
                leaf
            } else {
                ints[path[k - 1]].1
            },
    )
}

/// The climb that goes on from a path.
pub open spec fn climb_from(
    leaf: Certificate,
    ints: Seq<(String, Certificate)>,
    path: Seq<int>,
    log: Seq<LogLine>,
) -> Climb
    decreases ints.len() + 1 - path.len(),
{
    let last = elements(leaf, ints, path).last();
    if self_signed(last) {
        Climb { path, end: End::Root, log }
    } else if path.len() > ints.len() {
        Climb { path, end: End::NoIssuer, log }
    } else {
        match stop(last, ints, path, 0) {
            Some(i) => if ints[i].1.key is Err {
                Climb { path, end: End::BadKey(i), log }
            } else {
                climb_from(
                    leaf,
                    ints,
                    path.push(i),
                    (log + untested(last, ints, path, 0)).push(
                        LogLine::Text(signed_line(last, ints[i].1)),
                    ),
                )
            },
            None => Climb {
                path,
                end: End::NoIssuer,
                log: (log + untested(last, ints, path, 0)).push(
                    LogLine::Text(no_issuer_line(last)),
                ),
            },
        }
    }
}

/// The climb from a leaf certificate: from each certificate to the first unused intermediate whose
/// key signed it, until one is signed with its own key.
pub open spec fn climb(leaf: Certificate, ints: Seq<(String, Certificate)>) -> Climb {
    climb_from(leaf, ints, Seq::empty(), Seq::empty())
}

/// What a line about an untested candidate begins with.
pub open spec fn untested_start(i: int) -> Seq<char> {
    "error testing candidate #"@ + text::decimal(i as nat) + ": "@
}

/// Whether a line says what it should. Why a test failed is up to OpenSSL.
pub open spec fn says(line: Seq<char>, l: LogLine) -> bool {
    match l {
        LogLine::Text(t) => line == t,
        LogLine::Untested(i) => text::begins(line, untested_start(i)),
    }
}

/// Whether all lines say what they should.
pub open spec fn say(lines: Seq<Seq<char>>, log: Seq<LogLine>) -> bool {
    &&& lines.len() == log.len()
    &&& forall|i: int| 0 <= i < log.len() ==> says(#[trigger] lines[i], log[i])
}

/// Positions as integers.
pub open spec fn positions(v: Seq<usize>) -> Seq<int> {
    Seq::new(v.len(), |i: int| v[i] as int)
}

/// A chain that was built: the intermediates it goes through, whether it ends at a root, and the
/// log.
pub struct Chain {
    pub path: Vec<usize>,
    pub root: bool,
    pub log: Vec<String>,
}

/// Whether a certificate is signed with its own key.
pub fn is_self_signed(c: &Certificate) -> (r: bool)
    ensures
        r == self_signed(*c),
{
    match &c.key {
        Ok(_) => match crypto::signed_by(&c.der, &c.der) {
            Ok(b) => b,
            Err(_) => false,
        },
        Err(_) => false,
    }
}

fn append_lines(log: &mut Vec<String>, more: Vec<String>)
    ensures
        text::texts(final(log)@) == text::texts(old(log)@) + text::texts(more@),
{
    let mut more = more;
    let ghost added = more@;
    log.append(&mut more);
    assert(text::texts(log@) =~= text::texts(old(log)@) + text::texts(added));
}

/// Searches the intermediates that are not used yet for the issuer of `last`, and notes those whose
/// keys could not be tested. The result is where the search stopped.
fn find_issuer(
    last: &Certificate,
    ints: &Vec<(String, Certificate)>,
    used: &Vec<bool>,
    Ghost(path): Ghost<Seq<int>>,
) -> (r: (Option<usize>, Vec<String>))
    requires
        used@.len() == ints@.len(),
        forall|i: int| 0 <= i < used@.len() ==> #[trigger] used@[i] == path.contains(i),
    ensures
        match r.0 {
            Some(i) => stop(*last, ints@, path, 0) == Some(i as int),
            None => stop(*last, ints@, path, 0) is None,
        },
        say(text::texts(r.1@), untested(*last, ints@, path, 0)),
{
    let mut notes: Vec<String> = Vec::new();
    let ghost mut model: Seq<LogLine> = Seq::empty();
    let mut i: usize = 0;
    assert(model + untested(*last, ints@, path, 0) =~= untested(*last, ints@, path, 0));
    while i < ints.len()
        invariant
            i <= ints@.len(),
            used@.len() == ints@.len(),
            forall|j: int| 0 <= j < used@.len() ==> #[trigger] used@[j] == path.contains(j),
            stop(*last, ints@, path, i as int) == stop(*last, ints@, path, 0),
            say(text::texts(notes@), model),
            model + untested(*last, ints@, path, i as int) == untested(*last, ints@, path, 0),
        decreases ints.len() - i,
    {
        assert(used@[i as int] == path.contains(i as int));
        if !used[i] {
            let candidate: &Certificate = &ints[i].1;
            if candidate.key.is_err() {
                assert(model + Seq::<LogLine>::empty() =~= model);
                return (Some(i), notes);
            }
            match crypto::signed_by(&last.der, &candidate.der) {
                Ok(b) => {
                    if b {
                        assert(model + Seq::<LogLine>::empty() =~= model);
                        return (Some(i), notes);
                    }
                },
                Err(e) => {
                    let mut line: String = "error testing candidate #".to_string();
                    line.append(&text::dec_usize(i));
                    line.append(": ");
                    line.append(&e);
                    proof {
                        let start = untested_start(i as int);
                        assert(line@.subrange(0, start.len() as int) =~= start);
                        let more = model.push(LogLine::Untested(i as int));
                        assert(model + untested(*last, ints@, path, i as int) =~= more + untested(
                            *last,
                            ints@,
                            path,
                            i + 1,
                        ));
                        model = more;
                    }
                    text::push_text(&mut notes, line);
                },
            }
        }
        i += 1;
    }
    assert(model + Seq::<LogLine>::empty() =~= model);
    (None, notes)
}

/// The certificate with the number `k` in a chain.
fn element<'a>(
    leaf: &'a Certificate,
    ints: &'a Vec<(String, Certificate)>,
    path: &Vec<usize>,
    k: usize,
) -> (r: &'a Certificate)
    requires
        k <= path@.len(),
        forall|j: int| 0 <= j < path@.len() ==> #[trigger] path@[j] < ints@.len(),
    ensures
        *r == elements(*leaf, ints@, positions(path@))[k as int],
{
    if k == 0 {
        leaf
    } else {
        &ints[path[k - 1]].1
    }
}

/// A list of different numbers below `n` has at most `n` members.
proof fn lemma_distinct(path: Seq<int>, n: nat)
    requires
        path.no_duplicates(),
        forall|j: int| 0 <= j < path.len() ==> 0 <= #[trigger] path[j] < n,
    ensures
        path.len() <= n,
{
    path.unique_seq_to_set();
    let all = set_int_range(0, n as int);
    lemma_int_range(0, n as int);
    assert(path.to_set().subset_of(all));
    lemma_len_subset(path.to_set(), all);
}

/// Climbs from a leaf certificate as far as signatures lead.
pub fn build_chain(leaf: &Certificate, ints: &Vec<(String, Certificate)>) -> (r: Result<
    Chain,
    String,
>)
    ensures
        match r {
            Ok(chain) => {
                &&& positions(chain.path@) == climb(*leaf, ints@).path
                &&& chain.root == (climb(*leaf, ints@).end is Root)
                &&& climb(*leaf, ints@).end !is BadKey
                &&& say(text::texts(chain.log@), climb(*leaf, ints@).log)
                &&& forall|j: int|
                    0 <= j < chain.path@.len() ==> #[trigger] chain.path@[j] < ints@.len()
            },
            Err(e) => climb(*leaf, ints@).end matches End::BadKey(i) && e@
                == "bad public key in intermediate #"@ + text::decimal(i as nat) + ": "@ + (
            ints@[i].1.key->Err_0)@,
        },
{
    let mut path: Vec<usize> = Vec::new();
    let mut log: Vec<String> = Vec::new();
    let mut used: Vec<bool> = Vec::new();
    let ghost mut model: Seq<LogLine> = Seq::empty();
    let mut n: usize = 0;
    while n < ints.len()
        invariant
            n <= ints@.len(),
            used@.len() == n,
            forall|i: int| 0 <= i < n ==> !used@[i],
        decreases ints.len() - n,
    {
        used.push(false);
        n += 1;
    }
    assert(positions(path@) =~= Seq::empty());
    assert(say(text::texts(log@), model));
    let mut root: bool = is_self_signed(leaf);
    while !root
        invariant
            used@.len() == ints@.len(),
            forall|i: int|
                0 <= i < used@.len() ==> #[trigger] used@[i] == positions(path@).contains(i),
            forall|j: int| 0 <= j < path@.len() ==> #[trigger] path@[j] < ints@.len(),
            positions(path@).no_duplicates(),
            root == self_signed(elements(*leaf, ints@, positions(path@)).last()),
            say(text::texts(log@), model),
            climb(*leaf, ints@) == climb_from(*leaf, ints@, positions(path@), model),
        decreases ints.len() - path.len(),
    {
        let ghost so_far = positions(path@);
        proof {
            lemma_distinct(so_far, ints@.len());
        }
        let last: &Certificate = element(leaf, ints, &path, path.len());
        let (stopped, notes) = find_issuer(last, ints, &used, Ghost(so_far));
        match stopped {
            Some(i) => {
                proof {
                    lemma_stop(*last, ints@, so_far, 0);
                }
                let next: &Certificate = &ints[i].1;
                if let Err(e) = &next.key {
                    let mut message: String = "bad public key in intermediate #".to_string();
                    message.append(&text::dec_usize(i));
                    message.append(": ");
                    message.append(e);
                    return Err(message);
                }
                let mut line: String = "sig OK: [".to_string();
                line.append(&report::short_name_of(&last.subject));
                line.append("] signed by [");
                line.append(&report::short_name_of(&next.subject));
                line.append("]");
                append_lines(&mut log, notes);
                text::push_text(&mut log, line);
                used.set(i, true);
                path.push(i);
                root = is_self_signed(next);
                proof {
                    let more = so_far.push(i as int);
                    assert(positions(path@) =~= more);
                    model = (model + untested(*last, ints@, so_far, 0)).push(
                        LogLine::Text(signed_line(*last, *next)),
                    );
                    assert forall|j: int| 0 <= j < used@.len() implies #[trigger] used@[j]
                        == more.contains(j) by {
                        if so_far.contains(j) {
                            let k = choose|k: int| 0 <= k < so_far.len() && so_far[k] == j;
                            assert(more[k] == j);
                        }
                        if j == i {
                            assert(more[so_far.len() as int] == j);
                        }
                    }
                    lemma_distinct(more, ints@.len());
                }
            },
            None => {
                let mut line: String = "no issuer found for [".to_string();
                line.append(&report::short_name_of(&last.subject));
                line.append("] among loaded intermediates");
                append_lines(&mut log, notes);
                text::push_text(&mut log, line);
                return Ok(Chain { path, root, log });
            },
        }
    }
    Ok(Chain { path, root, log })
}

proof fn lemma_stop(
    last: Certificate,
    ints: Seq<(String, Certificate)>,
    path: Seq<int>,
    from: int,
)
    requires
        stop(last, ints, path, from) is Some,
    ensures
        ({
            let i = stop(last, ints, path, from)->0;
            &&& from <= i < ints.len()
            &&& 0 <= i
            &&& stops_at(last, ints, path, i)
        }),
    decreases ints.len() - from,
{
    if !stops_at(last, ints, path, from) {
        lemma_stop(last, ints, path, from + 1);
    }
}

/// How a certificate stands to its validity window at the moment `now`: the days that it has left,
/// or why it is not valid.
pub open spec fn window(c: Certificate, now: Moment) -> Result<i64, Seq<char>> {
    match (clock::days_left(c.not_before@, now), clock::days_left(c.not_after@, now)) {
        (None, _) => Err("unparsable notBefore"@),
        (_, None) => Err("unparsable notAfter"@),
        (Some(until), Some(left)) => if clock::after(clock::moment_of(c.not_before@)->0, now) {
            Err("not yet valid ("@ + text::signed_decimal(until as int) + "d until notBefore)"@)
        } else if clock::before(clock::moment_of(c.not_after@)->0, now) {
            Err("expired ("@ + text::signed_decimal(left as int) + "d until notAfter)"@)
        } else {
            Ok(left)
        },
    }
}

/// The note on a certificate's validity.
pub open spec fn window_note(c: Certificate, now: Moment) -> Seq<char> {
    let start = "["@ + report::short_name(c.subject@);
    match window(c, now) {
        Ok(left) => start + "] OK ("@ + text::signed_decimal(left as int) + "d left)"@,
        Err(e) => start + "] FAILED: "@ + e,
    }
}

/// The failures that the validity windows of some certificates give.
pub open spec fn window_failures(cs: Seq<Certificate>, now: Moment) -> Seq<Seq<char>>
    decreases cs.len(),
{
    if cs.len() == 0 {
        Seq::empty()
    } else {
        let rest = window_failures(cs.drop_last(), now);
        match window(cs.last(), now) {
            Ok(_) => rest,
            Err(e) => rest.push(
                "validity: ["@ + report::short_name(cs.last().subject@) + "] "@ + e,
            ),
        }
    }
}

/// Whether the private key of a set, where there is one, belongs to its leaf certificate.
pub open spec fn key_fits(leaf: Certificate, key: Option<PrivateKey>) -> bool {
    key matches Some(k) ==> crypto::x509_matches_key(leaf.der@, k.der@)
}

/// All failures of a set with a chain of the given certificates.
pub open spec fn failures(
    leaf: Certificate,
    key: Option<PrivateKey>,
    cs: Seq<Certificate>,
    now: Moment,
) -> Seq<Seq<char>> {
    (if key_fits(leaf, key) {
        Seq::empty()
    } else {
        seq!["private key does not match the certificate"@]
    }) + window_failures(cs, now)
}

/// The verdict on a set.
pub open spec fn verdict(failed: Seq<Seq<char>>, root: bool) -> Seq<char> {
    if failed.len() > 0 {
        "FAIL ("@ + text::joined(failed, "; "@) + ")"@
    } else if root {
        "PASS (full chain verified)"@
    } else {
        "PARTIAL PASS (chain + key OK, but no trust anchor)"@
    }
}

/// The names of some certificates.
pub open spec fn names(cs: Seq<Certificate>) -> Seq<Seq<char>> {
    Seq::new(cs.len(), |k: int| report::short_name(cs[k].subject@))
}

/// The notes on the validity of some certificates.
pub open spec fn window_notes(cs: Seq<Certificate>, now: Moment) -> Seq<Seq<char>> {
    Seq::new(cs.len(), |k: int| window_note(cs[k], now))
}

/// The lines on the chain.
pub open spec fn chain_text(cs: Seq<Certificate>, spare: bool, root: bool) -> Seq<char> {
    let t = report::field_text(
        "Chain"@,
        text::decimal(cs.len()) + " element(s): "@ + text::joined(names(cs), " -> "@),
    );
    t + report::field_text(
        "Trust anchor"@,
        if root {
            (if cs.len() == 1 && !spare {
                "self-signed leaf"@
            } else {
                "self-signed root"@
            }) + " ["@ + report::short_name(cs.last().subject@) + "]"@
        } else {
            "not provided (partial chain)"@
        },
    )
}

/// The lines of the log, moved in.
pub open spec fn log_text(log: Seq<Seq<char>>) -> Seq<char>
    decreases log.len(),
{
    if log.len() == 0 {
        Seq::empty()
    } else {
        log_text(log.drop_last()) + "           "@ + log.last() + "\n"@
    }
}

/// What the line on the private key says.
pub open spec fn key_note(leaf: Certificate, key: Option<PrivateKey>) -> Seq<char> {
    if key is None {
        "skipped (no key loaded)"@
    } else if key_fits(leaf, key) {
        "YES - private key matches certificate"@
    } else {
        "NO - private key does NOT match certificate"@
    }
}

/// The report on a set: its chain, the log, the private key, the validity windows and the verdict.
pub open spec fn verification_text(
    leaf: Certificate,
    ints: Seq<(String, Certificate)>,
    key: Option<PrivateKey>,
    log: Seq<Seq<char>>,
    now: Moment,
) -> Seq<char> {
    let c = climb(leaf, ints);
    let cs = elements(leaf, ints, c.path);
    let root = c.end is Root;
    let t = chain_text(cs, ints.len() > 0, root) + log_text(log) + report::field_text(
        "Key match"@,
        key_note(leaf, key),
    );
    t + report::field_text("Validity"@, text::joined(window_notes(cs, now), ", "@))
        + report::field_text("Overall"@, verdict(failures(leaf, key, cs, now), root))
}

/// Whether `r` is what verifying a set at the moment `now` gives: a report; or an error, where there
/// is no leaf certificate, or where a public key that is needed cannot be read.
pub open spec fn verified(set: CertSet, now: Moment, r: Result<String, String>) -> bool {
    match set.leaf {
        None => r matches Err(e) && e@ == "cannot verify: no leaf certificate loaded"@,
        Some(leaf) => {
            let c = climb(leaf, set.intermediates@);
            if let End::BadKey(i) = c.end {
                r matches Err(e) && e@ == "bad public key in intermediate #"@ + text::decimal(
                    i as nat,
                ) + ": "@ + (set.intermediates@[i].1.key->Err_0)@
            } else if set.key is Some && leaf.key is Err {
                r matches Err(e) && e@ == "cannot get leaf public key: "@ + (leaf.key->Err_0)@
            } else {
                r matches Ok(t) && exists|log: Seq<Seq<char>>| #[trigger]
                    say(log, c.log) && t@ == verification_text(
                        leaf,
                        set.intermediates@,
                        set.key,
                        log,
                        now,
                    )
            }
        },
    }
}

/// How a certificate stands to its validity window.
pub fn check_window(c: &Certificate, now: Moment) -> (r: Result<i64, String>)
    ensures
        match r {
            Ok(left) => window(*c, now) == Ok::<i64, Seq<char>>(left),
            Err(e) => window(*c, now) == Err::<i64, Seq<char>>(e@),
        },
{
    let until: i64 = match clock::days_until(&c.not_before, now) {
        Some(d) => d,
        None => return Err("unparsable notBefore".to_string()),
    };
    let left: i64 = match clock::days_until(&c.not_after, now) {
        Some(d) => d,
        None => return Err("unparsable notAfter".to_string()),
    };
    if let Some(t) = clock::parse_time(&c.not_before) {
        if t.secs > now.secs || (t.secs == now.secs && t.nanos > now.nanos) {
            let mut e: String = "not yet valid (".to_string();
            e.append(&text::dec_i64(until));
            e.append("d until notBefore)");
            return Err(e);
        }
    }
    if let Some(t) = clock::parse_time(&c.not_after) {
        if t.secs < now.secs || (t.secs == now.secs && t.nanos < now.nanos) {
            let mut e: String = "expired (".to_string();
            e.append(&text::dec_i64(left));
            e.append("d until notAfter)");
            return Err(e);
        }
    }
    Ok(left)
}

/// The names of the certificates of a chain.
fn chain_names(
    leaf: &Certificate,
    ints: &Vec<(String, Certificate)>,
    path: &Vec<usize>,
) -> (r: Vec<String>)
    requires
        forall|j: int| 0 <= j < path@.len() ==> #[trigger] path@[j] < ints@.len(),
    ensures
        text::texts(r@) == names(elements(*leaf, ints@, positions(path@))),
{
    let ghost cs = elements(*leaf, ints@, positions(path@));
    let mut out: Vec<String> = Vec::new();
    text::push_text(&mut out, report::short_name_of(&leaf.subject));
    let mut k: usize = 0;
    assert(text::texts(out@) =~= names(cs).take(1));
    while k < path.len()
        invariant
            k <= path@.len(),
            forall|j: int| 0 <= j < path@.len() ==> #[trigger] path@[j] < ints@.len(),
            cs == elements(*leaf, ints@, positions(path@)),
            text::texts(out@) == names(cs).take(k + 1),
        decreases path.len() - k,
    {
        text::push_text(&mut out, report::short_name_of(&ints[path[k]].1.subject));
        k += 1;
        assert(text::texts(out@) =~= names(cs).take(k + 1));
    }
    assert(names(cs).take(k + 1) =~= names(cs));
    out
}

/// Notes how a certificate stands to its validity window, and the failure that this may be.
fn push_window(c: &Certificate, now: Moment, notes: &mut Vec<String>, failed: &mut Vec<String>)
    ensures
        text::texts(final(notes)@) == text::texts(old(notes)@).push(window_note(*c, now)),
        text::texts(final(failed)@) == match window(*c, now) {
            Ok(_) => text::texts(old(failed)@),
            Err(e) => text::texts(old(failed)@).push(
                "validity: ["@ + report::short_name(c.subject@) + "] "@ + e,
            ),
        },
{
    let name: String = report::short_name_of(&c.subject);
    let mut note: String = "[".to_string();
    note.append(&name);
    match check_window(c, now) {
        Ok(left) => {
            note.append("] OK (");
            note.append(&text::dec_i64(left));
            note.append("d left)");
        },
        Err(e) => {
            note.append("] FAILED: ");
            note.append(&e);
            let mut failure: String = "validity: [".to_string();
            failure.append(&name);
            failure.append("] ");
            failure.append(&e);
            text::push_text(failed, failure);
        },
    }
    text::push_text(notes, note);
}

/// The notes on the validity of the certificates of a chain, and the failures among them.
fn chain_windows(
    leaf: &Certificate,
    ints: &Vec<(String, Certificate)>,
    path: &Vec<usize>,
    now: Moment,
) -> (r: (Vec<String>, Vec<String>))
    requires
        forall|j: int| 0 <= j < path@.len() ==> #[trigger] path@[j] < ints@.len(),
    ensures
        text::texts(r.0@) == window_notes(elements(*leaf, ints@, positions(path@)), now),
        text::texts(r.1@) == window_failures(elements(*leaf, ints@, positions(path@)), now),
{
    let ghost cs = elements(*leaf, ints@, positions(path@));
    let mut notes: Vec<String> = Vec::new();
    let mut failed: Vec<String> = Vec::new();
    assert(text::texts(notes@) =~= window_notes(cs, now).take(0));
    assert(cs.take(0) =~= Seq::empty());
    assert(text::texts(failed@) =~= window_failures(cs.take(0), now));
    assert(cs.take(1).drop_last() =~= cs.take(0));
    push_window(leaf, now, &mut notes, &mut failed);
    assert(text::texts(notes@) =~= window_notes(cs, now).take(1));
    let mut k: usize = 0;
    while k < path.len()
        invariant
            k <= path@.len(),
            forall|j: int| 0 <= j < path@.len() ==> #[trigger] path@[j] < ints@.len(),
            cs == elements(*leaf, ints@, positions(path@)),
            text::texts(notes@) == window_notes(cs, now).take(k + 1),
            text::texts(failed@) == window_failures(cs.take(k + 1), now),
        decreases path.len() - k,
    {
        push_window(&ints[path[k]].1, now, &mut notes, &mut failed);
        k += 1;
        assert(cs.take(k + 1).drop_last() =~= cs.take(k as int));
        assert(text::texts(notes@) =~= window_notes(cs, now).take(k + 1));
    }
    assert(window_notes(cs, now).take(k + 1) =~= window_notes(cs, now));
    assert(cs.take(k + 1) =~= cs);
    (notes, failed)
}

fn log_lines(log: &Vec<String>) -> (r: String)
    ensures
        r@ == log_text(text::texts(log@)),
{
    let ghost all = text::texts(log@);
    let mut out: String = String::new();
    let mut i: usize = 0;
    assert(all.take(0) =~= Seq::empty());
    while i < log.len()
        invariant
            i <= log@.len(),
            all == text::texts(log@),
            out@ == log_text(all.take(i as int)),
        decreases log.len() - i,
    {
        out.append("           ");
        out.append(&log[i]);
        out.append("\n");
        i += 1;
        assert(all.take(i as int).drop_last() =~= all.take(i - 1));
    }
    assert(all.take(i as int) =~= all);
    out
}

/// Verifies a set as of the moment `now`: builds the chain from the leaf through the intermediates
/// by their signatures, checks that the private key belongs to the leaf, and checks the validity
/// window of every certificate of the chain.
pub fn verify_set_at(set: &CertSet, now: Moment) -> (r: Result<String, String>)
    ensures
        verified(*set, now, r),
{
    let leaf: &Certificate = match &set.leaf {
        Some(c) => c,
        None => return Err("cannot verify: no leaf certificate loaded".to_string()),
    };
    let ints: &Vec<(String, Certificate)> = &set.intermediates;
    let chain: Chain = match build_chain(leaf, ints) {
        Ok(c) => c,
        Err(e) => return Err(e),
    };
    let mut summary: String = text::dec_u128(chain.path.len() as u128 + 1);
    summary.append(" element(s): ");
    summary.append(&text::join(&chain_names(leaf, ints, &chain.path), " -> "));
    let mut out: String = report::field("Chain", &summary);
    if chain.root {
        let mut anchor: String = (if chain.path.len() == 0 && ints.len() == 0 {
            "self-signed leaf"
        } else {
            "self-signed root"
        }).to_string();
        anchor.append(" [");
        anchor.append(
            &report::short_name_of(&element(leaf, ints, &chain.path, chain.path.len()).subject),
        );
        anchor.append("]");
        out.append(&report::field("Trust anchor", &anchor));
    } else {
        out.append(&report::field("Trust anchor", "not provided (partial chain)"));
    }
    out.append(&log_lines(&chain.log));
    let mut failed: Vec<String> = Vec::new();
    match &set.key {
        Some(key) => {
            if let Err(e) = &leaf.key {
                let mut message: String = "cannot get leaf public key: ".to_string();
                message.append(e);
                return Err(message);
            }
            if crypto::matches_key(&leaf.der, &key.der) {
                out.append(&report::field("Key match", "YES - private key matches certificate"));
            } else {
                out.append(
                    &report::field("Key match", "NO - private key does NOT match certificate"),
                );
                text::push_text(
                    &mut failed,
                    "private key does not match the certificate".to_string(),
                );
            }
        },
        None => {
            out.append(&report::field("Key match", "skipped (no key loaded)"));
        },
    }
    assert(text::texts(failed@) =~= if key_fits(*leaf, set.key) {
        Seq::empty()
    } else {
        seq!["private key does not match the certificate"@]
    });
    let (notes, late) = chain_windows(leaf, ints, &chain.path, now);
    append_lines(&mut failed, late);
    out.append(&report::field("Validity", &text::join(&notes, ", ")));
    let overall: String = if failed.len() > 0 {
        let mut v: String = "FAIL (".to_string();
        v.append(&text::join(&failed, "; "));
        v.append(")");
        v
    } else if chain.root {
        "PASS (full chain verified)".to_string()
    } else {
        "PARTIAL PASS (chain + key OK, but no trust anchor)".to_string()
    };
    assert(failed@.len() == text::texts(failed@).len());
    out.append(&report::field("Overall", &overall));
    assert(say(text::texts(chain.log@), climb(*leaf, ints@).log));
    Ok(out)
}

/// Verifies a set as of some moment.
pub fn verify_set(set: &CertSet) -> (r: Result<String, String>)
    ensures
        exists|now: Moment| #[trigger] verified(*set, now, r),
{
    verify_set_at(set, clock::now())
}

/// What holds of every climb that goes on from a path without repetitions.
proof fn lemma_climb(
    leaf: Certificate,
    ints: Seq<(String, Certificate)>,
    path: Seq<int>,
    log: Seq<LogLine>,
)
    requires
        path.no_duplicates(),
        forall|j: int| 0 <= j < path.len() ==> 0 <= #[trigger] path[j] < ints.len(),
        forall|k: int|
            0 <= k < path.len() ==> crypto::x509_signed_by(
                (#[trigger] elements(leaf, ints, path)[k]).der@,
                elements(leaf, ints, path)[k + 1].der@,
            ) == Some(true),
    ensures
        ({
            let c = climb_from(leaf, ints, path, log);
            let cs = elements(leaf, ints, c.path);
            &&& c.path.no_duplicates()
            &&& forall|j: int| 0 <= j < c.path.len() ==> 0 <= #[trigger] c.path[j] < ints.len()
            &&& forall|k: int|
                0 <= k < c.path.len() ==> crypto::x509_signed_by(
                    (#[trigger] cs[k]).der@,
                    cs[k + 1].der@,
                ) == Some(true)
            &&& (c.end is Root) == self_signed(cs.last())
            &&& c.end is NoIssuer ==> forall|i: int|
                0 <= i < ints.len() && !c.path.contains(i) ==> crypto::x509_signed_by(
                    cs.last().der@,
                    (#[trigger] ints[i]).1.der@,
                ) != Some(true)
        }),
    decreases ints.len() + 1 - path.len(),
{
    lemma_distinct(path, ints.len());
    let cs = elements(leaf, ints, path);
    let last = cs.last();
    if !self_signed(last) {
        match stop(last, ints, path, 0) {
            Some(i) => {
                lemma_stop(last, ints, path, 0);
                if ints[i].1.key is Ok {
                    let more = path.push(i);
                    let next = elements(leaf, ints, more);
                    assert forall|k: int| 0 <= k < more.len() implies crypto::x509_signed_by(
                        (#[trigger] next[k]).der@,
                        next[k + 1].der@,
                    ) == Some(true) by {
                        assert(next[k] == cs[k]);
                        if k < path.len() {
                            assert(next[k + 1] == cs[k + 1]);
                        }
                    }
                    lemma_climb(
                        leaf,
                        ints,
                        more,
                        (log + untested(last, ints, path, 0)).push(
                            LogLine::Text(signed_line(last, ints[i].1)),
                        ),
                    );
                }
            },
            None => {
                assert forall|i: int| 0 <= i < ints.len() && !path.contains(i) implies crypto::x509_signed_by(
                    last.der@,
                    (#[trigger] ints[i]).1.der@,
                ) != Some(true) by {
                    lemma_no_stop(last, ints, path, 0, i);
                }
            },
        }
    }
}

proof fn lemma_no_stop(
    last: Certificate,
    ints: Seq<(String, Certificate)>,
    path: Seq<int>,
    from: int,
    i: int,
)
    requires
        0 <= from <= i < ints.len(),
        stop(last, ints, path, from) is None,
    ensures
        !stops_at(last, ints, path, i),
    decreases ints.len() - from,
{
    if from < i {
        lemma_no_stop(last, ints, path, from + 1, i);
    }
}

/// A chain leads from the leaf certificate upwards: no intermediate stands in it twice, each
/// certificate in it is signed by the next one, and its end is a root exactly where the last one is
/// signed with its own key. Where an issuer is missing, no intermediate outside the chain is it.
pub proof fn chain_is_signed(leaf: Certificate, ints: Seq<(String, Certificate)>)
    ensures
        ({
            let c = climb(leaf, ints);
            let cs = elements(leaf, ints, c.path);
            &&& c.path.no_duplicates()
            &&& forall|j: int| 0 <= j < c.path.len() ==> 0 <= #[trigger] c.path[j] < ints.len()
            &&& forall|k: int|
                0 <= k < c.path.len() ==> crypto::x509_signed_by(
                    (#[trigger] cs[k]).der@,
                    cs[k + 1].der@,
                ) == Some(true)
            &&& (c.end is Root) == self_signed(cs.last())
            &&& c.end is NoIssuer ==> forall|i: int|
                0 <= i < ints.len() && !c.path.contains(i) ==> crypto::x509_signed_by(
                    cs.last().der@,
                    (#[trigger] ints[i]).1.der@,
                ) != Some(true)
        }),
{
    lemma_climb(leaf, ints, Seq::empty(), Seq::empty());
}

/// A leaf certificate that is signed with its own key is a chain by itself, whatever else is
/// loaded.
pub proof fn self_signed_leaf_stands_alone(leaf: Certificate, ints: Seq<(String, Certificate)>)
    requires
        self_signed(leaf),
    ensures
        climb(leaf, ints) == (Climb { path: Seq::empty(), end: End::Root, log: Seq::empty() }),
{
}

/// Whether `other` holds what `ints` holds, in the order that `order` gives.
pub open spec fn reordered(
    ints: Seq<(String, Certificate)>,
    other: Seq<(String, Certificate)>,
    order: Seq<int>,
) -> bool {
    &&& other.len() == ints.len()
    &&& order.len() == ints.len()
    &&& order.no_duplicates()
    &&& forall|i: int|
        0 <= i < order.len() ==> 0 <= #[trigger] order[i] < ints.len() && other[i]
            == ints[order[i]]
}

/// Whether at most one intermediate signed a certificate.
pub open spec fn one_signer(c: Certificate, ints: Seq<(String, Certificate)>) -> bool {
    forall|i: int, j: int|
        0 <= i < ints.len() && 0 <= j < ints.len() && crypto::x509_signed_by(
            c.der@,
            (#[trigger] ints[i]).1.der@,
        ) == Some(true) && crypto::x509_signed_by(c.der@, (#[trigger] ints[j]).1.der@) == Some(true)
            ==> i == j
}

/// Whether the chain from a leaf certificate is settled: all keys of the intermediates can be read, and
/// of the certificates that are not signed with their own key each has at most one signer.
pub open spec fn settled(leaf: Certificate, ints: Seq<(String, Certificate)>) -> bool {
    &&& forall|i: int| 0 <= i < ints.len() ==> (#[trigger] ints[i]).1.key is Ok
    &&& !self_signed(leaf) ==> one_signer(leaf, ints)
    &&& forall|i: int|
        0 <= i < ints.len() && !self_signed((#[trigger] ints[i]).1) ==> one_signer(ints[i].1, ints)
}

/// A list of positions, looked up in an order.
pub open spec fn looked_up(path: Seq<int>, order: Seq<int>) -> Seq<int> {
    Seq::new(path.len(), |k: int| order[path[k]])
}

/// Every position has its place in an order.
proof fn lemma_order_covers(order: Seq<int>, j: int)
    requires
        order.no_duplicates(),
        forall|i: int| 0 <= i < order.len() ==> 0 <= #[trigger] order[i] < order.len(),
        0 <= j < order.len(),
    ensures
        order.contains(j),
{
    order.unique_seq_to_set();
    let all = set_int_range(0, order.len() as int);
    lemma_int_range(0, order.len() as int);
    assert(order.to_set().subset_of(all));
    lemma_subset_equality(order.to_set(), all);
    assert(order.to_set().contains(j));
}

/// The search for an issuer finds the same intermediate in any order.
proof fn lemma_stop_reordered(
    last: Certificate,
    ints: Seq<(String, Certificate)>,
    other: Seq<(String, Certificate)>,
    order: Seq<int>,
    path: Seq<int>,
)
    requires
        reordered(ints, other, order),
        forall|i: int| 0 <= i < ints.len() ==> (#[trigger] ints[i]).1.key is Ok,
        one_signer(last, ints),
        forall|k: int| 0 <= k < path.len() ==> 0 <= #[trigger] path[k] < other.len(),
    ensures
        match stop(last, other, path, 0) {
            Some(i) => 0 <= i < other.len() && stop(last, ints, looked_up(path, order), 0) == Some(
                order[i],
            ),
            None => stop(last, ints, looked_up(path, order), 0) is None,
        },
{
    let there = looked_up(path, order);
    if let Some(i) = stop(last, other, path, 0) {
        lemma_stop(last, other, path, 0);
        assert(other[i] == ints[order[i]]);
        if there.contains(order[i]) {
            let k = choose|k: int| 0 <= k < there.len() && there[k] == order[i];
            assert(order[path[k]] == order[i]);
            assert(path[k] == i);
        }
        assert(stops_at(last, ints, there, order[i]));
        if stop(last, ints, there, 0) is None {
            lemma_no_stop(last, ints, there, 0, order[i]);
        }
        lemma_stop(last, ints, there, 0);
        let j = stop(last, ints, there, 0)->0;
        assert(ints[j].1.key is Ok);
        assert(ints[order[i]].1.key is Ok);
    } else if let Some(j) = stop(last, ints, there, 0) {
        lemma_stop(last, ints, there, 0);
        lemma_order_covers(order, j);
        let i = choose|i: int| 0 <= i < order.len() && order[i] == j;
        assert(other[i] == ints[j]);
        if path.contains(i) {
            let k = choose|k: int| 0 <= k < path.len() && path[k] == i;
            assert(there[k] == j);
        }
        assert(stops_at(last, other, path, i));
        lemma_no_stop(last, other, path, 0, i);
    }
}

proof fn lemma_climb_reordered(
    leaf: Certificate,
    ints: Seq<(String, Certificate)>,
    other: Seq<(String, Certificate)>,
    order: Seq<int>,
    path: Seq<int>,
    log: Seq<LogLine>,
    other_log: Seq<LogLine>,
)
    requires
        reordered(ints, other, order),
        settled(leaf, ints),
        forall|k: int| 0 <= k < path.len() ==> 0 <= #[trigger] path[k] < other.len(),
    ensures
        ({
            let a = climb_from(leaf, ints, looked_up(path, order), log);
            let b = climb_from(leaf, other, path, other_log);
            &&& elements(leaf, ints, a.path) == elements(leaf, other, b.path)
            &&& a.end == b.end
            &&& a.end !is BadKey
        }),
    decreases ints.len() + 1 - path.len(),
{
    let there = looked_up(path, order);
    let a = elements(leaf, ints, there);
    let b = elements(leaf, other, path);
    assert(a =~= b) by {
        assert forall|k: int| 0 <= k < a.len() implies a[k] == b[k] by {
            if k > 0 {
                assert(other[path[k - 1]] == ints[order[path[k - 1]]]);
            }
        }
    }
    let last = a.last();
    if !self_signed(last) && path.len() <= ints.len() {
        if path.len() > 0 {
            let n = path.len() - 1;
            assert(order[path[n]] == there[n]);
            assert(last == ints[there[n]].1);
        }
        assert(one_signer(last, ints));
        lemma_stop_reordered(last, ints, other, order, path);
        if let Some(i) = stop(last, other, path, 0) {
            let j = order[i];
            assert(other[i] == ints[j]);
            assert(ints[j].1.key is Ok);
            assert(looked_up(path.push(i), order) =~= there.push(j));
            lemma_climb_reordered(
                leaf,
                ints,
                other,
                order,
                path.push(i),
                (log + untested(last, ints, there, 0)).push(
                    LogLine::Text(signed_line(last, ints[j].1)),
                ),
                (other_log + untested(last, other, path, 0)).push(
                    LogLine::Text(signed_line(last, other[i].1)),
                ),
            );
        }
    }
}

/// The order in which intermediates were loaded does not matter, where no certificate has two signers
/// to choose from: the chain goes through the same certificates to the same end, and the verdict is the
/// same.
pub proof fn load_order_is_irrelevant(
    leaf: Certificate,
    ints: Seq<(String, Certificate)>,
    other: Seq<(String, Certificate)>,
    order: Seq<int>,
    key: Option<PrivateKey>,
    now: Moment,
)
    requires
        reordered(ints, other, order),
        settled(leaf, ints),
    ensures
        ({
            let a = climb(leaf, ints);
            let b = climb(leaf, other);
            let cs = elements(leaf, ints, a.path);
            let ds = elements(leaf, other, b.path);
            &&& cs == ds
            &&& a.end == b.end
            &&& chain_text(cs, ints.len() > 0, a.end is Root) == chain_text(
                ds,
                other.len() > 0,
                b.end is Root,
            )
            &&& window_notes(cs, now) == window_notes(ds, now)
            &&& verdict(failures(leaf, key, cs, now), a.end is Root) == verdict(
                failures(leaf, key, ds, now),
                b.end is Root,
            )
        }),
{
    assert(looked_up(Seq::empty(), order) =~= Seq::empty());
    lemma_climb_reordered(leaf, ints, other, order, Seq::empty(), Seq::empty(), Seq::empty());
}

/// A leaf certificate that one intermediate signed, which a root signed, is found to lead to that root
/// in whichever order the two were loaded. Without the root the chain ends at the intermediate.
pub proof fn chain_of_three_is_found(
    leaf: Certificate,
    middle: (String, Certificate),
    root: (String, Certificate),
)
    requires
        middle.1.key is Ok,
        root.1.key is Ok,
        crypto::x509_signed_by(leaf.der@, middle.1.der@) == Some(true),
        crypto::x509_signed_by(middle.1.der@, root.1.der@) == Some(true),
        self_signed(root.1),
        !self_signed(leaf),
        !self_signed(middle.1),
        crypto::x509_signed_by(leaf.der@, root.1.der@) != Some(true),
    ensures
        ({
            let near = climb(leaf, seq![middle, root]);
            let far = climb(leaf, seq![root, middle]);
            let part = climb(leaf, seq![middle]);
            &&& elements(leaf, seq![middle, root], near.path) == seq![leaf, middle.1, root.1]
            &&& near.end is Root
            &&& elements(leaf, seq![root, middle], far.path) == seq![leaf, middle.1, root.1]
            &&& far.end is Root
            &&& elements(leaf, seq![middle], part.path) == seq![leaf, middle.1]
            &&& part.end is NoIssuer
        }),
{
    reveal_with_fuel(climb_from, 4);
    reveal_with_fuel(stop, 4);
    let none = Seq::<int>::empty();
    assert(elements(leaf, seq![middle, root], none).last() == leaf);
    assert(elements(leaf, seq![root, middle], none).last() == leaf);
    assert(elements(leaf, seq![middle], none).last() == leaf);
    assert(stop(leaf, seq![middle, root], none, 0) == Some(0int));
    assert(stop(leaf, seq![root, middle], none, 0) == Some(1int));
    assert(stop(leaf, seq![middle], none, 0) == Some(0int));
    let to_first = none.push(0);
    let to_second = none.push(1);
    assert(to_first.contains(0)) by {
        assert(to_first[0] == 0);
    }
    assert(to_second.contains(1)) by {
        assert(to_second[0] == 1);
    }
    assert(elements(leaf, seq![middle, root], to_first).last() == middle.1);
    assert(elements(leaf, seq![root, middle], to_second).last() == middle.1);
    assert(elements(leaf, seq![middle], to_first).last() == middle.1);
    assert(stop(middle.1, seq![middle, root], to_first, 0) == Some(1int));
    assert(stop(middle.1, seq![root, middle], to_second, 0) == Some(0int));
    assert(stop(middle.1, seq![middle], to_first, 0) is None);
    assert(elements(leaf, seq![middle, root], to_first.push(1)) =~= seq![leaf, middle.1, root.1]);
    assert(elements(leaf, seq![root, middle], to_second.push(0)) =~= seq![leaf, middle.1, root.1]);
    assert(elements(leaf, seq![middle], to_first) =~= seq![leaf, middle.1]);
}

proof fn lemma_window_failures(cs: Seq<Certificate>, now: Moment)
    ensures
        (window_failures(cs, now).len() == 0) == (forall|k: int|
            0 <= k < cs.len() ==> window(#[trigger] cs[k], now) is Ok),
    decreases cs.len(),
{
    if cs.len() > 0 {
        let init = cs.drop_last();
        lemma_window_failures(init, now);
        if window_failures(cs, now).len() == 0 {
            assert forall|k: int| 0 <= k < cs.len() implies window(#[trigger] cs[k], now) is Ok by {
                if k < init.len() {
                    assert(window(init[k], now) is Ok);
                }
            }
        } else if forall|k: int| 0 <= k < cs.len() ==> window(#[trigger] cs[k], now) is Ok {
            assert forall|k: int| 0 <= k < init.len() implies window(#[trigger] init[k], now)
                is Ok by {
                assert(window(cs[k], now) is Ok);
            }
            assert(window(cs[cs.len() - 1], now) is Ok);
        }
    }
}

/// A set fails exactly where its private key does not belong to its leaf certificate or some
/// certificate of the chain is outside its validity window. Otherwise it passes where the chain
/// ends at a root, and passes in part where it does not.
pub proof fn verdict_is_sound(
    leaf: Certificate,
    key: Option<PrivateKey>,
    cs: Seq<Certificate>,
    root: bool,
    now: Moment,
)
    ensures
        ({
            let sound = key_fits(leaf, key) && forall|k: int|
                0 <= k < cs.len() ==> window(#[trigger] cs[k], now) is Ok;
            let v = verdict(failures(leaf, key, cs, now), root);
            &&& sound && root ==> v == "PASS (full chain verified)"@
            &&& sound && !root ==> v == "PARTIAL PASS (chain + key OK, but no trust anchor)"@
            &&& (v[0] == 'F') == !sound
        }),
{
    lemma_window_failures(cs, now);
    reveal_strlit("PASS (full chain verified)");
    reveal_strlit("PARTIAL PASS (chain + key OK, but no trust anchor)");
    reveal_strlit("FAIL (");
}

/// A certificate is in its validity window at `now` exactly where both its times can be read,
/// `now` is not before the first and `now` is not after the second.
pub proof fn window_is_closed(c: Certificate, now: Moment)
    ensures
        (window(c, now) is Ok) == {
            &&& clock::days_left(c.not_before@, now) is Some
            &&& clock::days_left(c.not_after@, now) is Some
            &&& !clock::after(clock::moment_of(c.not_before@)->0, now)
            &&& !clock::before(clock::moment_of(c.not_after@)->0, now)
        },
{
}

/// Whether a moment lies in a certificate's validity window: both its times can be read and counted
/// from the moment, the first is not after the moment and the second is not before it.
pub open spec fn in_date(c: Certificate, now: Moment) -> bool {
    match (clock::moment_of(c.not_before@), clock::moment_of(c.not_after@)) {
        (Some(from), Some(until)) => {
            &&& clock::days_apart(from, (now.secs, now.nanos)) is Some
            &&& clock::days_apart(until, (now.secs, now.nanos)) is Some
            &&& from.0 < now.secs || (from.0 == now.secs && from.1 <= now.nanos)
            &&& now.secs < until.0 || (now.secs == until.0 && now.nanos <= until.1)
        },
        _ => false,
    }
}

/// Whether nothing speaks against a set: its private key, where there is one, belongs to its leaf
/// certificate, and the leaf and every intermediate on the path are in date.
pub open spec fn stands(set: CertSet, now: Moment) -> bool {
    let leaf = set.leaf->0;
    let path = climb(leaf, set.intermediates@).path;
    &&& set.key matches Some(k) ==> crypto::x509_matches_key(leaf.der@, k.der@)
    &&& in_date(leaf, now)
    &&& forall|k: int| 0 <= k < path.len() ==> in_date(set.intermediates@[#[trigger] path[k]].1, now)
}

/// Whether a chain ends at a certificate that is signed with its own key: the leaf, or the last
/// intermediate on the path.
pub open spec fn anchored(set: CertSet) -> bool {
    let path = climb(set.leaf->0, set.intermediates@).path;
    let last = if path.len() == 0 {
        set.leaf->0
    } else {
        set.intermediates@[path[path.len() - 1]].1
    };
    last.key is Ok && crypto::x509_signed_by(last.der@, last.der@) == Some(true)
}

/// Whether an intermediate can carry a chain on from a certificate: its key cannot be read, which ends
/// the search, or made the certificate's signature.
pub open spec fn carries_on(c: Certificate, candidate: Certificate) -> bool {
    candidate.key is Err || crypto::x509_signed_by(c.der@, candidate.der@) == Some(true)
}

proof fn lemma_stop_first(
    last: Certificate,
    ints: Seq<(String, Certificate)>,
    path: Seq<int>,
    from: int,
)
    requires
        0 <= from,
    ensures
        match stop(last, ints, path, from) {
            Some(i) => {
                &&& from <= i < ints.len()
                &&& !path.contains(i)
                &&& carries_on(last, ints[i].1)
                &&& forall|j: int|
                    from <= j < i && !path.contains(j) ==> !carries_on(last, (#[trigger] ints[j]).1)
            },
            None => forall|j: int|
                from <= j < ints.len() && !path.contains(j) ==> !carries_on(
                    last,
                    (#[trigger] ints[j]).1,
                ),
        },
    decreases ints.len() - from,
{
    if from < ints.len() && !stops_at(last, ints, path, from) {
        lemma_stop_first(last, ints, path, from + 1);
    }
}

/// Whether the step with the number `k` of a path is right: what stands before it is not signed with
/// its own key, and it is the first intermediate not used before it that can carry the chain on.
pub open spec fn right_step(
    leaf: Certificate,
    ints: Seq<(String, Certificate)>,
    path: Seq<int>,
    k: int,
) -> bool {
    let below = if k == 0 {
        leaf
    } else {
        ints[path[k - 1]].1
    };
    &&& !(below.key is Ok && crypto::x509_signed_by(below.der@, below.der@) == Some(true))
    &&& 0 <= path[k] < ints.len()
    &&& ints[path[k]].1.key is Ok
    &&& crypto::x509_signed_by(below.der@, ints[path[k]].1.der@) == Some(true)
    &&& !path.take(k).contains(path[k])
    &&& forall|j: int|
        0 <= j < path[k] && !path.take(k).contains(j) ==> !carries_on(below, (#[trigger] ints[j]).1)
}

proof fn lemma_right_steps(
    leaf: Certificate,
    ints: Seq<(String, Certificate)>,
    path: Seq<int>,
    log: Seq<LogLine>,
)
    requires
        path.no_duplicates(),
        forall|j: int| 0 <= j < path.len() ==> 0 <= #[trigger] path[j] < ints.len(),
        forall|k: int| 0 <= k < path.len() ==> #[trigger] right_step(leaf, ints, path, k),
    ensures
        ({
            let c = climb_from(leaf, ints, path, log);
            let last = if c.path.len() == 0 {
                leaf
            } else {
                ints[c.path[c.path.len() - 1]].1
            };
            let own = last.key is Ok && crypto::x509_signed_by(last.der@, last.der@) == Some(true);
            &&& forall|k: int| 0 <= k < c.path.len() ==> #[trigger] right_step(leaf, ints, c.path, k)
            &&& (c.end is Root) == own
            &&& match c.end {
                End::Root => true,
                End::NoIssuer => forall|j: int|
                    0 <= j < ints.len() && !c.path.contains(j) ==> !carries_on(
                        last,
                        (#[trigger] ints[j]).1,
                    ),
                End::BadKey(i) => {
                    &&& 0 <= i < ints.len()
                    &&& !c.path.contains(i)
                    &&& ints[i].1.key is Err
                    &&& forall|j: int|
                        0 <= j < i && !c.path.contains(j) ==> !carries_on(
                            last,
                            (#[trigger] ints[j]).1,
                        )
                },
            }
        }),
    decreases ints.len() + 1 - path.len(),
{
    lemma_distinct(path, ints.len());
    let last = elements(leaf, ints, path).last();
    if !self_signed(last) {
        lemma_stop_first(last, ints, path, 0);
        if let Some(i) = stop(last, ints, path, 0) {
            if ints[i].1.key is Ok {
                let more = path.push(i);
                assert forall|k: int| 0 <= k < more.len() implies #[trigger] right_step(
                    leaf,
                    ints,
                    more,
                    k,
                ) by {
                    assert(more.take(k) =~= path.take(k));
                    if k < path.len() {
                        assert(right_step(leaf, ints, path, k));
                    } else {
                        assert(path.take(k) =~= path);
                    }
                }
                lemma_right_steps(
                    leaf,
                    ints,
                    more,
                    (log + untested(last, ints, path, 0)).push(
                        LogLine::Text(signed_line(last, ints[i].1)),
                    ),
                );
            }
        }
    }
}

/// A chain is climbed step by step: from each certificate that is not signed with its own key to the
/// first intermediate, of those not used yet, whose key made its signature. It ends at a root exactly
/// where a certificate is signed with its own key; otherwise where no intermediate that is left can
/// carry it on, or where the key of the first one that might cannot be read.
pub proof fn climb_takes_first_signers(leaf: Certificate, ints: Seq<(String, Certificate)>)
    ensures
        ({
            let c = climb(leaf, ints);
            let last = if c.path.len() == 0 {
                leaf
            } else {
                ints[c.path[c.path.len() - 1]].1
            };
            let own = last.key is Ok && crypto::x509_signed_by(last.der@, last.der@) == Some(true);
            &&& forall|k: int| 0 <= k < c.path.len() ==> #[trigger] right_step(leaf, ints, c.path, k)
            &&& (c.end is Root) == own
            &&& match c.end {
                End::Root => true,
                End::NoIssuer => forall|j: int|
                    0 <= j < ints.len() && !c.path.contains(j) ==> !carries_on(
                        last,
                        (#[trigger] ints[j]).1,
                    ),
                End::BadKey(i) => {
                    &&& 0 <= i < ints.len()
                    &&& !c.path.contains(i)
                    &&& ints[i].1.key is Err
                    &&& forall|j: int|
                        0 <= j < i && !c.path.contains(j) ==> !carries_on(
                            last,
                            (#[trigger] ints[j]).1,
                        )
                },
            }
        }),
{
    lemma_right_steps(leaf, ints, Seq::empty(), Seq::empty());
}

/// A certificate passes the check of its window exactly while it is in date. The message tells on
/// which side of the window the moment lies: before the first time, or else after the second.
pub proof fn windows_tell_sides(c: Certificate, now: Moment)
    ensures
        (window(c, now) is Ok) == in_date(c, now),
        (clock::moment_of(c.not_before@) matches Some(from) && clock::moment_of(
            c.not_after@,
        ) matches Some(until) && clock::days_apart(from, (now.secs, now.nanos)) is Some
            && clock::days_apart(until, (now.secs, now.nanos)) is Some) ==> {
            let from = clock::moment_of(c.not_before@)->0;
            let until = clock::moment_of(c.not_after@)->0;
            let early = now.secs < from.0 || (now.secs == from.0 && now.nanos < from.1);
            let late = until.0 < now.secs || (until.0 == now.secs && until.1 < now.nanos);
            match window(c, now) {
                Ok(left) => !early && !late && Some(left) == clock::days_apart(
                    until,
                    (now.secs, now.nanos),
                ),
                Err(e) => {
                    &&& early ==> text::begins(e, "not yet valid ("@)
                    &&& !early ==> late && text::begins(e, "expired ("@)
                },
            }
        },
{
    if let Err(e) = window(c, now) {
        let a = "not yet valid ("@;
        let b = "expired ("@;
        if clock::days_left(c.not_before@, now) is Some && clock::days_left(c.not_after@, now) is Some {
            if clock::after(clock::moment_of(c.not_before@)->0, now) {
                assert(e.subrange(0, a.len() as int) =~= a);
            } else {
                assert(e.subrange(0, b.len() as int) =~= b);
            }
        }
    }
}

proof fn lemma_window_ends(c: Certificate, now: Moment)
    requires
        window(c, now) is Err,
    ensures
        ({
            let e = window(c, now)->Err_0;
            &&& e.len() >= 2
            &&& e.last() == 'e' || e.last() == ')' || (e.last() == 'r' && e[e.len() - 2] == 'e')
        }),
{
    reveal_strlit("unparsable notBefore");
    reveal_strlit("unparsable notAfter");
    reveal_strlit("d until notBefore)");
    reveal_strlit("d until notAfter)");
}

proof fn lemma_failures_end(cs: Seq<Certificate>, now: Moment)
    requires
        window_failures(cs, now).len() > 0,
    ensures
        ({
            let e = window_failures(cs, now).last();
            &&& e.len() >= 2
            &&& e.last() == 'e' || e.last() == ')' || (e.last() == 'r' && e[e.len() - 2] == 'e')
        }),
    decreases cs.len(),
{
    if window(cs.last(), now) is Ok {
        lemma_failures_end(cs.drop_last(), now);
    } else {
        lemma_window_ends(cs.last(), now);
        let e = window(cs.last(), now)->Err_0;
        let start = "validity: ["@ + report::short_name(cs.last().subject@) + "] "@;
        assert((start + e).last() == e.last());
        assert((start + e)[(start + e).len() - 2] == e[e.len() - 2]);
    }
}

proof fn lemma_failures_close(leaf: Certificate, key: Option<PrivateKey>, cs: Seq<Certificate>, now: Moment)
    requires
        failures(leaf, key, cs, now).len() > 0,
    ensures
        ({
            let e = failures(leaf, key, cs, now).last();
            &&& e.len() >= 2
            &&& e.last() == 'e' || e.last() == ')' || (e.last() == 'r' && e[e.len() - 2] == 'e')
        }),
{
    let w = window_failures(cs, now);
    if w.len() > 0 {
        lemma_failures_end(cs, now);
        assert(failures(leaf, key, cs, now).last() == w.last());
    } else {
        reveal_strlit("private key does not match the certificate");
    }
}

/// The last characters of a text that ends with another.
proof fn lemma_ends_char(t: Seq<char>, s: Seq<char>, i: int)
    requires
        text::ends(t, s),
        0 < i <= s.len(),
    ensures
        t[t.len() - i] == s[s.len() - i],
{
    let tail = t.subrange(t.len() - s.len(), t.len() as int);
    assert(tail[s.len() - i] == t[t.len() - i]);
}

proof fn lemma_ends_with(front: Seq<char>, s: Seq<char>)
    ensures
        text::ends(front + s, s),
{
    let t = front + s;
    assert(t.subrange(t.len() - s.len(), t.len() as int) =~= s);
}

/// A verdict of failure does not end as the others do.
proof fn lemma_failure_verdict(failed: Seq<Seq<char>>, root: bool)
    requires
        failed.len() > 0,
        failed.last().len() >= 2,
        ({
            let e = failed.last();
            e.last() == 'e' || e.last() == ')' || (e.last() == 'r' && e[e.len() - 2] == 'e')
        }),
    ensures
        ({
            let v = verdict(failed, root);
            let n = v.len() as int;
            &&& n >= 3
            &&& v[n - 2] != 'd'
            &&& !(v[n - 2] == 'r' && v[n - 3] == 'o')
            &&& v == "FAIL ("@ + text::joined(failed, "; "@) + ")"@
            &&& text::joined(failed, "; "@).len() > 0
        }),
{
    let list = text::joined(failed, "; "@);
    let e = failed.last();
    text::joined_holds_parts(failed, "; "@, 0);
    lemma_ends_char(list, e, 1);
    lemma_ends_char(list, e, 2);
    lemma_wrapped("FAIL ("@, list);
}

proof fn lemma_wrapped(start: Seq<char>, list: Seq<char>)
    requires
        list.len() >= 2,
    ensures
        ({
            let v = start + list + ")"@;
            &&& v.len() >= 3
            &&& v[v.len() - 2] == list[list.len() - 1]
            &&& v[v.len() - 3] == list[list.len() - 2]
        }),
{
    reveal_strlit(")");
}

proof fn lemma_sound_set(set: CertSet, now: Moment)
    requires
        set.leaf is Some,
    ensures
        ({
            let leaf = set.leaf->0;
            let c = climb(leaf, set.intermediates@);
            let cs = elements(leaf, set.intermediates@, c.path);
            &&& stands(set, now) == (failures(leaf, set.key, cs, now).len() == 0)
            &&& anchored(set) == (c.end is Root)
        }),
{
    let leaf = set.leaf->0;
    let ints = set.intermediates@;
    let c = climb(leaf, ints);
    let cs = elements(leaf, ints, c.path);
    climb_takes_first_signers(leaf, ints);
    lemma_window_failures(cs, now);
    assert forall|k: int| 0 <= k < cs.len() implies (window(#[trigger] cs[k], now) is Ok) == in_date(
        cs[k],
        now,
    ) by {
        windows_tell_sides(cs[k], now);
    }
    assert(cs[0] == leaf);
    if stands(set, now) {
        assert forall|k: int| 0 <= k < cs.len() implies window(#[trigger] cs[k], now) is Ok by {
            if k > 0 {
                assert(in_date(ints[c.path[k - 1]].1, now));
            }
        }
    } else if forall|k: int| 0 <= k < cs.len() ==> window(#[trigger] cs[k], now) is Ok {
        assert(window(cs[0], now) is Ok);
        assert forall|k: int| 0 <= k < c.path.len() implies in_date(
            ints[#[trigger] c.path[k]].1,
            now,
        ) by {
            assert(window(cs[k + 1], now) is Ok);
        }
    }
}

/// What a report ends with.
proof fn lemma_report_tail(set: CertSet, now: Moment, r: Result<String, String>) -> (front: Seq<char>)
    requires
        verified(set, now, r),
        r is Ok,
    ensures
        ({
            let leaf = set.leaf->0;
            let c = climb(leaf, set.intermediates@);
            let cs = elements(leaf, set.intermediates@, c.path);
            &&& set.leaf is Some
            &&& r->Ok_0@ == front + "\nOverall    : "@ + verdict(
                failures(leaf, set.key, cs, now),
                c.end is Root,
            ) + "\n"@
        }),
{
    let leaf = set.leaf->0;
    let ints = set.intermediates@;
    let c = climb(leaf, ints);
    let cs = elements(leaf, ints, c.path);
    let root = c.end is Root;
    let t = r->Ok_0@;
    let log = choose|log: Seq<Seq<char>>| #[trigger]
        say(log, c.log) && t == verification_text(leaf, ints, set.key, log, now);
    let v = verdict(failures(leaf, set.key, cs, now), root);
    let top = chain_text(cs, ints.len() > 0, root) + log_text(log) + report::field_text(
        "Key match"@,
        key_note(leaf, set.key),
    );
    let notes = text::joined(window_notes(cs, now), ", "@);
    let front = top + (text::padded_right("Validity"@, 11) + ": "@ + notes);
    lemma_overall_label();
    let label = "\nOverall    : "@;
    assert(t =~= front + label + v + "\n"@);
    front
}

proof fn lemma_overall_label()
    ensures
        "\n"@ + text::padded_right("Overall"@, 11) + ": "@ == "\nOverall    : "@,
{
    reveal_strlit("Overall");
    reveal_strlit("\n");
    reveal_strlit(": ");
    reveal_strlit("\nOverall    : ");
    assert("\n"@ + text::padded_right("Overall"@, 11) + ": "@ =~= "\nOverall    : "@);
}

proof fn lemma_full_line()
    ensures
        ({
            let line = "\nOverall    : PASS (full chain verified)\n"@;
            &&& line == "\nOverall    : "@ + "PASS (full chain verified)"@ + "\n"@
            &&& line.len() > 4
            &&& line[line.len() - 3] == 'd'
        }),
{
    reveal_strlit("\n");
    reveal_strlit("\nOverall    : ");
    reveal_strlit("PASS (full chain verified)");
    reveal_strlit("\nOverall    : PASS (full chain verified)\n");
    assert("\nOverall    : PASS (full chain verified)\n"@ =~= "\nOverall    : "@
        + "PASS (full chain verified)"@ + "\n"@);
}

proof fn lemma_part_line()
    ensures
        ({
            let line = "\nOverall    : PARTIAL PASS (chain + key OK, but no trust anchor)\n"@;
            &&& line == "\nOverall    : "@ + "PARTIAL PASS (chain + key OK, but no trust anchor)"@
                + "\n"@
            &&& line.len() > 4
            &&& line[line.len() - 3] == 'r'
            &&& line[line.len() - 4] == 'o'
        }),
{
    reveal_strlit("\n");
    reveal_strlit("\nOverall    : ");
    reveal_strlit("PARTIAL PASS (chain + key OK, but no trust anchor)");
    reveal_strlit("\nOverall    : PARTIAL PASS (chain + key OK, but no trust anchor)\n");
    assert("\nOverall    : PARTIAL PASS (chain + key OK, but no trust anchor)\n"@
        =~= "\nOverall    : "@ + "PARTIAL PASS (chain + key OK, but no trust anchor)"@ + "\n"@);
}

proof fn lemma_fails(t: Seq<char>, front: Seq<char>, v: Seq<char>, why: Seq<char>)
    requires
        t == front + "\nOverall    : "@ + v + "\n"@,
        v == "FAIL ("@ + why + ")"@,
        why.len() > 0,
        v.len() >= 3,
        v[v.len() - 2] != 'd',
        !(v[v.len() - 2] == 'r' && v[v.len() - 3] == 'o'),
    ensures
        !text::ends(t, "\nOverall    : PASS (full chain verified)\n"@),
        !text::ends(t, "\nOverall    : PARTIAL PASS (chain + key OK, but no trust anchor)\n"@),
        t == front + "\nOverall    : FAIL ("@ + why + ")\n"@,
        text::within(t, "\nOverall    : FAIL ("@),
{
    lemma_full_line();
    lemma_part_line();
    let full = "\nOverall    : PASS (full chain verified)\n"@;
    let part = "\nOverall    : PARTIAL PASS (chain + key OK, but no trust anchor)\n"@;
    reveal_strlit("\n");
    let n = t.len() as int;
    assert(t[n - 3] == v[v.len() - 2]);
    assert(t[n - 4] == v[v.len() - 3]);
    if text::ends(t, full) {
        lemma_ends_char(t, full, 3);
    }
    if text::ends(t, part) {
        lemma_ends_char(t, part, 3);
        lemma_ends_char(t, part, 4);
    }
    reveal_strlit("FAIL (");
    reveal_strlit("\nOverall    : ");
    reveal_strlit("\nOverall    : FAIL (");
    reveal_strlit(")");
    reveal_strlit(")\n");
    let start = "\nOverall    : FAIL ("@;
    assert("\nOverall    : "@ + "FAIL ("@ =~= start);
    assert(")"@ + "\n"@ =~= ")\n"@);
    assert(t =~= front + ("\nOverall    : "@ + "FAIL ("@) + why + (")"@ + "\n"@));
    text::lemma_within(front, start, why + ")\n"@);
    assert(front + start + (why + ")\n"@) =~= t);
}

proof fn lemma_passes(t: Seq<char>, front: Seq<char>, v: Seq<char>, root: bool)
    requires
        t == front + "\nOverall    : "@ + v + "\n"@,
        v == if root {
            "PASS (full chain verified)"@
        } else {
            "PARTIAL PASS (chain + key OK, but no trust anchor)"@
        },
    ensures
        text::ends(t, "\nOverall    : PASS (full chain verified)\n"@) == root,
        text::ends(t, "\nOverall    : PARTIAL PASS (chain + key OK, but no trust anchor)\n"@) == !root,
{
    lemma_full_line();
    lemma_part_line();
    let full = "\nOverall    : PASS (full chain verified)\n"@;
    let part = "\nOverall    : PARTIAL PASS (chain + key OK, but no trust anchor)\n"@;
    let whole = "\nOverall    : "@ + v + "\n"@;
    assert(t =~= front + whole);
    lemma_ends_with(front, whole);
    lemma_ends_char(t, whole, 3);
    if text::ends(t, full) {
        lemma_ends_char(t, full, 3);
    }
    if text::ends(t, part) {
        lemma_ends_char(t, part, 3);
    }
}

/// The report on a set ends with the verdict, on a line of its own: that it passes in full exactly
/// where nothing speaks against the set and its chain ends at a root; that it passes in part exactly
/// where nothing speaks against it and the chain ends elsewhere; that it fails, and why, in every other
/// case, however long the chain is.
pub proof fn reports_end_with_verdict(set: CertSet, now: Moment, r: Result<String, String>)
    requires
        verified(set, now, r),
        r is Ok,
    ensures
        ({
            let t = r->Ok_0@;
            &&& set.leaf is Some
            &&& text::ends(t, "\nOverall    : PASS (full chain verified)\n"@) == (stands(set, now)
                && anchored(set))
            &&& text::ends(
                t,
                "\nOverall    : PARTIAL PASS (chain + key OK, but no trust anchor)\n"@,
            ) == (stands(set, now) && !anchored(set))
            &&& !stands(set, now) ==> exists|front: Seq<char>, why: Seq<char>|
                why.len() > 0 && t == #[trigger] (front + "\nOverall    : FAIL ("@ + why + ")\n"@)
            &&& !stands(set, now) ==> text::within(t, "\nOverall    : FAIL ("@)
        }),
{
    let leaf = set.leaf->0;
    let c = climb(leaf, set.intermediates@);
    let cs = elements(leaf, set.intermediates@, c.path);
    let root = c.end is Root;
    let t = r->Ok_0@;
    let failed = failures(leaf, set.key, cs, now);
    let front = lemma_report_tail(set, now, r);
    lemma_sound_set(set, now);
    let v = verdict(failed, root);
    if failed.len() > 0 {
        lemma_failures_close(leaf, set.key, cs, now);
        lemma_failure_verdict(failed, root);
        lemma_fails(t, front, v, text::joined(failed, "; "@));
    } else {
        lemma_passes(t, front, v, root);
    }
}

/// The parts of a report in order.
proof fn lemma_report_parts(set: CertSet, now: Moment, r: Result<String, String>) -> (log: Seq<Seq<char>>)
    requires
        verified(set, now, r),
        r is Ok,
    ensures
        ({
            let leaf = set.leaf->0;
            let c = climb(leaf, set.intermediates@);
            let cs = elements(leaf, set.intermediates@, c.path);
            let root = c.end is Root;
            &&& set.leaf is Some
            &&& say(log, c.log)
            &&& r->Ok_0@ == report::field_text(
                "Chain"@,
                text::decimal(cs.len()) + " element(s): "@ + text::joined(names(cs), " -> "@),
            ) + (report::field_text(
                "Trust anchor"@,
                anchor_note(cs, set.intermediates@.len() > 0, root),
            ) + (log_text(log) + (report::field_text("Key match"@, key_note(leaf, set.key)) + (
            report::field_text("Validity"@, text::joined(window_notes(cs, now), ", "@))
                + report::field_text("Overall"@, verdict(failures(leaf, set.key, cs, now), root))))))
        }),
{
    let leaf = set.leaf->0;
    let ints = set.intermediates@;
    let c = climb(leaf, ints);
    let cs = elements(leaf, ints, c.path);
    let root = c.end is Root;
    let t = r->Ok_0@;
    let log = choose|log: Seq<Seq<char>>| #[trigger]
        say(log, c.log) && t == verification_text(leaf, ints, set.key, log, now);
    let a = report::field_text(
        "Chain"@,
        text::decimal(cs.len()) + " element(s): "@ + text::joined(names(cs), " -> "@),
    );
    let b = report::field_text("Trust anchor"@, anchor_note(cs, ints.len() > 0, root));
    let l = log_text(log);
    let d = report::field_text("Key match"@, key_note(leaf, set.key));
    let e = report::field_text("Validity"@, text::joined(window_notes(cs, now), ", "@));
    let f = report::field_text("Overall"@, verdict(failures(leaf, set.key, cs, now), root));
    assert(t == (a + b) + l + d + e + f);
    assert((a + b) + l + d + e + f =~= a + (b + (l + (d + (e + f)))));
    log
}

/// What the line on the trust anchor says.
spec fn anchor_note(cs: Seq<Certificate>, spare: bool, root: bool) -> Seq<char> {
    if root {
        (if cs.len() == 1 && !spare {
            "self-signed leaf"@
        } else {
            "self-signed root"@
        }) + " ["@ + report::short_name(cs.last().subject@) + "]"@
    } else {
        "not provided (partial chain)"@
    }
}

proof fn lemma_log_closed(log: Seq<Seq<char>>)
    ensures
        log_text(log).len() == 0 || log_text(log).last() == '\n',
{
    reveal_strlit("\n");
}

/// A field of a report is a line.
#[verifier::spinoff_prover]
proof fn lemma_field_line(before: Seq<char>, name: Seq<char>, label: Seq<char>, value: Seq<char>, after: Seq<char>)
    requires
        before.len() == 0 || before.last() == '\n',
        text::padded_right(name, 11) + ": "@ == label,
    ensures
        text::on_line(before + (report::field_text(name, value) + after), label + value),
{
    reveal_strlit("\n");
    let line = label + value;
    assert(report::field_text(name, value) =~= line + seq!['\n']);
    text::lemma_on_line(before, line, after);
    assert(before + (line + seq!['\n']) + after =~= before + (report::field_text(name, value) + after));
}

proof fn lemma_anchor_line()
    ensures
        text::padded_right("Trust anchor"@, 11) + ": "@ == "Trust anchor: "@,
        "Trust anchor: "@ + ("self-signed leaf"@ + " ["@) == "Trust anchor: self-signed leaf ["@,
        "Trust anchor: "@ + ("self-signed root"@ + " ["@) == "Trust anchor: self-signed root ["@,
        "Trust anchor: "@ + "not provided (partial chain)"@
            == "Trust anchor: not provided (partial chain)"@,
{
    reveal_strlit("Trust anchor");
    reveal_strlit(": ");
    reveal_strlit("Trust anchor: ");
    assert("Trust anchor"@ + ": "@ =~= "Trust anchor: "@);
    reveal_strlit("self-signed leaf");
    reveal_strlit("self-signed root");
    reveal_strlit(" [");
    reveal_strlit("Trust anchor: self-signed leaf [");
    reveal_strlit("Trust anchor: self-signed root [");
    reveal_strlit("not provided (partial chain)");
    reveal_strlit("Trust anchor: not provided (partial chain)");
    assert("Trust anchor: "@ + ("self-signed leaf"@ + " ["@) =~= "Trust anchor: self-signed leaf ["@);
    assert("Trust anchor: "@ + ("self-signed root"@ + " ["@) =~= "Trust anchor: self-signed root ["@);
    assert("Trust anchor: "@ + "not provided (partial chain)"@
        =~= "Trust anchor: not provided (partial chain)"@);
}

proof fn lemma_key_line()
    ensures
        text::padded_right("Key match"@, 11) + ": "@ == "Key match  : "@,
        "Key match  : "@ + "skipped (no key loaded)"@ == "Key match  : skipped (no key loaded)"@,
        "Key match  : "@ + "YES - private key matches certificate"@
            == "Key match  : YES - private key matches certificate"@,
        "Key match  : "@ + "NO - private key does NOT match certificate"@
            == "Key match  : NO - private key does NOT match certificate"@,
{
    reveal_strlit("Key match");
    reveal_strlit(": ");
    reveal_strlit("Key match  : ");
    assert(text::padded_right("Key match"@, 11) + ": "@ =~= "Key match  : "@);
    reveal_strlit("skipped (no key loaded)");
    reveal_strlit("YES - private key matches certificate");
    reveal_strlit("NO - private key does NOT match certificate");
    reveal_strlit("Key match  : skipped (no key loaded)");
    reveal_strlit("Key match  : YES - private key matches certificate");
    reveal_strlit("Key match  : NO - private key does NOT match certificate");
    assert("Key match  : "@ + "skipped (no key loaded)"@ =~= "Key match  : skipped (no key loaded)"@);
    assert("Key match  : "@ + "YES - private key matches certificate"@
        =~= "Key match  : YES - private key matches certificate"@);
    assert("Key match  : "@ + "NO - private key does NOT match certificate"@
        =~= "Key match  : NO - private key does NOT match certificate"@);
}

/// The certificate with the number `k` of a set's chain: the leaf is the first.
pub open spec fn chain_member(set: CertSet, k: int) -> Certificate {
    if k == 0 {
        set.leaf->0
    } else {
        set.intermediates@[climb(set.leaf->0, set.intermediates@).path[k - 1]].1
    }
}

/// The report on a set says on a line of its own whether the private key belongs to the leaf.
pub proof fn reports_tell_key_match(set: CertSet, now: Moment, r: Result<String, String>)
    requires
        verified(set, now, r),
        r is Ok,
    ensures
        ({
            let t = r->Ok_0@;
            &&& set.key is None ==> text::on_line(t, "Key match  : skipped (no key loaded)"@)
            &&& set.key matches Some(key) ==> {
                let fits = crypto::x509_matches_key(set.leaf->0.der@, key.der@);
                &&& fits ==> text::on_line(t, "Key match  : YES - private key matches certificate"@)
                &&& !fits ==> text::on_line(
                    t,
                    "Key match  : NO - private key does NOT match certificate"@,
                )
            }
        }),
{
    let leaf = set.leaf->0;
    let c = climb(leaf, set.intermediates@);
    let cs = elements(leaf, set.intermediates@, c.path);
    let root = c.end is Root;
    let t = r->Ok_0@;
    let log = lemma_report_parts(set, now, r);
    lemma_key_line();
    lemma_log_closed(log);
    let a = report::field_text(
        "Chain"@,
        text::decimal(cs.len()) + " element(s): "@ + text::joined(names(cs), " -> "@),
    );
    let note = anchor_note(cs, set.intermediates@.len() > 0, root);
    let b = report::field_text("Trust anchor"@, note);
    let l = log_text(log);
    let d = report::field_text("Key match"@, key_note(leaf, set.key));
    let after = report::field_text("Validity"@, text::joined(window_notes(cs, now), ", "@))
        + report::field_text("Overall"@, verdict(failures(leaf, set.key, cs, now), root));
    lemma_field_ends("Trust anchor"@, note);
    lemma_lines_close(a, b, l);
    lemma_field_line(a + b + l, "Key match"@, "Key match  : "@, key_note(leaf, set.key), after);
    lemma_three_before(a, b, l, d + after);
}

proof fn lemma_field_ends(name: Seq<char>, value: Seq<char>)
    ensures
        report::field_text(name, value).len() > 0,
        report::field_text(name, value).last() == '\n',
{
    reveal_strlit("\n");
}

proof fn lemma_lines_close(a: Seq<char>, b: Seq<char>, l: Seq<char>)
    requires
        b.len() > 0,
        b.last() == '\n',
        l.len() == 0 || l.last() == '\n',
    ensures
        (a + b + l).len() > 0,
        (a + b + l).last() == '\n',
{
    if l.len() == 0 {
        assert(a + b + l =~= a + b);
    }
}

proof fn lemma_three_before(a: Seq<char>, b: Seq<char>, l: Seq<char>, rest: Seq<char>)
    ensures
        a + (b + (l + rest)) == (a + b + l) + rest,
{
    assert(a + (b + (l + rest)) =~= (a + b + l) + rest);
}

/// The report on a set says on a line of its own at which certificate the chain is anchored, or that it
/// is not.
pub proof fn reports_tell_anchor(set: CertSet, now: Moment, r: Result<String, String>)
    requires
        verified(set, now, r),
        r is Ok,
    ensures
        ({
            let t = r->Ok_0@;
            let n = climb(set.leaf->0, set.intermediates@).path.len() as int;
            let name = report::short_name(chain_member(set, n).subject@);
            &&& anchored(set) && set.intermediates@.len() == 0 ==> text::on_line(
                t,
                "Trust anchor: self-signed leaf ["@ + name + "]"@,
            )
            &&& anchored(set) && set.intermediates@.len() > 0 ==> text::on_line(
                t,
                "Trust anchor: self-signed root ["@ + name + "]"@,
            )
            &&& !anchored(set) ==> text::on_line(t, "Trust anchor: not provided (partial chain)"@)
        }),
{
    let leaf = set.leaf->0;
    let ints = set.intermediates@;
    let c = climb(leaf, ints);
    let cs = elements(leaf, ints, c.path);
    let root = c.end is Root;
    let t = r->Ok_0@;
    let log = lemma_report_parts(set, now, r);
    lemma_sound_set(set, now);
    lemma_anchor_line();
    let a = report::field_text(
        "Chain"@,
        text::decimal(cs.len()) + " element(s): "@ + text::joined(names(cs), " -> "@),
    );
    let note = anchor_note(cs, ints.len() > 0, root);
    let after = log_text(log) + (report::field_text("Key match"@, key_note(leaf, set.key)) + (
    report::field_text("Validity"@, text::joined(window_notes(cs, now), ", "@))
        + report::field_text("Overall"@, verdict(failures(leaf, set.key, cs, now), root))));
    lemma_field_ends(
        "Chain"@,
        text::decimal(cs.len()) + " element(s): "@ + text::joined(names(cs), " -> "@),
    );
    lemma_field_line(a, "Trust anchor"@, "Trust anchor: "@, note, after);
    let n = c.path.len() as int;
    let name = report::short_name(chain_member(set, n).subject@);
    assert(cs.last() == chain_member(set, n));
    if ints.len() == 0 {
        lemma_no_path(leaf, ints);
    }
    lemma_bracketed("Trust anchor: "@, "self-signed leaf"@, " ["@, name, "]"@);
    lemma_bracketed("Trust anchor: "@, "self-signed root"@, " ["@, name, "]"@);
}

proof fn lemma_bracketed(label: Seq<char>, kind: Seq<char>, open: Seq<char>, name: Seq<char>, close: Seq<char>)
    ensures
        label + (kind + open + name + close) == label + (kind + open) + name + close,
{
    assert(label + (kind + open + name + close) =~= label + (kind + open) + name + close);
}

/// What stands in the value of a field stands in the report.
proof fn lemma_within_field(before: Seq<char>, name: Seq<char>, value: Seq<char>, after: Seq<char>, s: Seq<char>)
    requires
        text::within(value, s),
    ensures
        text::within(before + (report::field_text(name, value) + after), s),
{
    let front = before + (text::padded_right(name, 11) + ": "@);
    let back = "\n"@ + after;
    text::lemma_within_part(front, value, back, s);
    assert(front + value + back =~= before + (report::field_text(name, value) + after));
}

proof fn lemma_regrouped(a: Seq<char>, b: Seq<char>, l: Seq<char>, d: Seq<char>, rest: Seq<char>)
    ensures
        a + (b + (l + (d + rest))) == (a + b + l + d) + rest,
        a + (b + (l + (d + rest))) == a + b + (l + (d + rest)),
{
    assert(a + (b + (l + (d + rest))) =~= (a + b + l + d) + rest);
    assert(a + (b + (l + (d + rest))) =~= a + b + (l + (d + rest)));
}

/// The start of a note stands in the list of all notes.
proof fn lemma_note_listed(cs: Seq<Certificate>, now: Moment, k: int)
    requires
        0 <= k < cs.len(),
    ensures
        ({
            let list = text::joined(window_notes(cs, now), ", "@);
            let start = "["@ + report::short_name(cs[k].subject@);
            &&& in_date(cs[k], now) ==> text::within(list, start + "] OK ("@)
            &&& !in_date(cs[k], now) ==> text::within(list, start + "] FAILED: "@)
        }),
{
    let c = cs[k];
    windows_tell_sides(c, now);
    let notes = window_notes(cs, now);
    let list = text::joined(notes, ", "@);
    text::joined_holds_parts(notes, ", "@, k);
    let part = window_note(c, now);
    assert(notes[k] == part);
    let start = "["@ + report::short_name(c.subject@);
    let s = if in_date(c, now) {
        start + "] OK ("@
    } else {
        start + "] FAILED: "@
    };
    let none = Seq::<char>::empty();
    let rest = part.skip(s.len() as int);
    assert(none + s + rest =~= part);
    text::lemma_within(none, s, rest);
    lemma_within_twice(part, list, s);
}

/// The report on a set names the certificates of the chain on its first line: how many there are, and
/// their names from the leaf upwards.
pub proof fn reports_name_chain(set: CertSet, now: Moment, r: Result<String, String>)
    requires
        verified(set, now, r),
        r is Ok,
    ensures
        ({
            let n = climb(set.leaf->0, set.intermediates@).path.len() + 1;
            text::begins(
                r->Ok_0@,
                "Chain      : "@ + text::decimal(n) + " element(s): "@ + text::joined(
                    Seq::new(n, |k: int| report::short_name(chain_member(set, k).subject@)),
                    " -> "@,
                ) + "\n"@,
            )
        }),
{
    let leaf = set.leaf->0;
    let c = climb(leaf, set.intermediates@);
    let cs = elements(leaf, set.intermediates@, c.path);
    let t = r->Ok_0@;
    let n = c.path.len() + 1;
    let log = lemma_report_parts(set, now, r);
    let shown = Seq::new(n, |k: int| report::short_name(chain_member(set, k).subject@));
    assert(names(cs) =~= shown);
    reveal_strlit("Chain");
    reveal_strlit(": ");
    reveal_strlit("Chain      : ");
    assert(text::padded_right("Chain"@, 11) + ": "@ =~= "Chain      : "@);
    let line = "Chain      : "@ + text::decimal(n) + " element(s): "@ + text::joined(shown, " -> "@)
        + "\n"@;
    let a = report::field_text(
        "Chain"@,
        text::decimal(cs.len()) + " element(s): "@ + text::joined(names(cs), " -> "@),
    );
    assert(a =~= line);
    assert(t.subrange(0, line.len() as int) =~= line);
}

/// The report on a set says of each certificate of the chain whether it is in date.
pub proof fn reports_tell_validity(set: CertSet, now: Moment, r: Result<String, String>, k: int)
    requires
        verified(set, now, r),
        r is Ok,
        0 <= k <= climb(set.leaf->0, set.intermediates@).path.len(),
    ensures
        ({
            let t = r->Ok_0@;
            let c = chain_member(set, k);
            let name = report::short_name(c.subject@);
            &&& in_date(c, now) ==> text::within(t, "["@ + name + "] OK ("@)
            &&& !in_date(c, now) ==> text::within(t, "["@ + name + "] FAILED: "@)
        }),
{
    let leaf = set.leaf->0;
    let climbed = climb(leaf, set.intermediates@);
    let cs = elements(leaf, set.intermediates@, climbed.path);
    let root = climbed.end is Root;
    let t = r->Ok_0@;
    let log = lemma_report_parts(set, now, r);
    let c = cs[k];
    assert(c == chain_member(set, k));
    lemma_note_listed(cs, now, k);
    let start = "["@ + report::short_name(c.subject@);
    let s = if in_date(c, now) {
        start + "] OK ("@
    } else {
        start + "] FAILED: "@
    };
    let a = report::field_text(
        "Chain"@,
        text::decimal(cs.len()) + " element(s): "@ + text::joined(names(cs), " -> "@),
    );
    let b = report::field_text("Trust anchor"@, anchor_note(cs, set.intermediates@.len() > 0, root));
    let d = report::field_text("Key match"@, key_note(leaf, set.key));
    let list = text::joined(window_notes(cs, now), ", "@);
    let six = report::field_text("Overall"@, verdict(failures(leaf, set.key, cs, now), root));
    lemma_regrouped(a, b, log_text(log), d, report::field_text("Validity"@, list) + six);
    lemma_within_field(a + b + log_text(log) + d, "Validity"@, list, six, s);
}

proof fn lemma_no_path(leaf: Certificate, ints: Seq<(String, Certificate)>)
    requires
        ints.len() == 0,
    ensures
        climb(leaf, ints).path.len() == 0,
{
}

/// What stands in a part that stands in a text stands in the text.
proof fn lemma_within_twice(part: Seq<char>, t: Seq<char>, s: Seq<char>)
    requires
        text::within(t, part),
        text::within(part, s),
    ensures
        text::within(t, s),
{
    let i = choose|i: int|
        0 <= i && i + part.len() <= t.len() && #[trigger] t.subrange(i, i + part.len()) == part;
    let a = t.take(i);
    let b = t.skip(i + part.len());
    assert(a + part + b =~= t);
    text::lemma_within_part(a, part, b, s);
}

/// A set is reported on exactly where it has a leaf certificate, no key that the climb needs is broken,
/// and the leaf's own key can be read where there is a private key to compare it with. Otherwise the
/// message tells which of these it is.
pub proof fn reports_are_owed(set: CertSet, now: Moment, r: Result<String, String>)
    requires
        verified(set, now, r),
    ensures
        ({
            let end = climb(set.leaf->0, set.intermediates@).end;
            &&& (r is Ok) == (set.leaf is Some && end !is BadKey && !(set.key is Some
                && set.leaf->0.key is Err))
            &&& r matches Err(e) ==> {
                &&& set.leaf is None ==> e@ == "cannot verify: no leaf certificate loaded"@
                &&& set.leaf is Some ==> (end matches End::BadKey(i) ==> text::begins(
                    e@,
                    "bad public key in intermediate #"@ + text::decimal(i as nat) + ": "@,
                ) && text::ends(e@, set.intermediates@[i].1.key->Err_0@))
                &&& set.leaf is Some && end !is BadKey ==> text::begins(
                    e@,
                    "cannot get leaf public key: "@,
                ) && text::ends(e@, set.leaf->0.key->Err_0@)
            }
        }),
{
    if let Err(e) = r {
        if set.leaf is Some {
            if let End::BadKey(i) = climb(set.leaf->0, set.intermediates@).end {
                let a = "bad public key in intermediate #"@ + text::decimal(i as nat) + ": "@;
                lemma_both_ends(a, set.intermediates@[i].1.key->Err_0@);
            } else {
                lemma_both_ends("cannot get leaf public key: "@, set.leaf->0.key->Err_0@);
            }
        }
    }
}

proof fn lemma_both_ends(a: Seq<char>, b: Seq<char>)
    ensures
        text::begins(a + b, a),
        text::ends(a + b, b),
{
    let t = a + b;
    assert(t.subrange(0, a.len() as int) =~= a);
    assert(t.subrange(t.len() - b.len(), t.len() as int) =~= b);
}

/// The report on a set says of each certificate of the chain how many days it has left or, if it is not
/// in date, how many days it is on which side.
pub proof fn reports_tell_days(
    set: CertSet,
    now: Moment,
    r: Result<String, String>,
    k: int,
    until: i64,
    left: i64,
)
    requires
        verified(set, now, r),
        r is Ok,
        0 <= k <= climb(set.leaf->0, set.intermediates@).path.len(),
        ({
            let c = chain_member(set, k);
            let (from, to) = (clock::moment_of(c.not_before@), clock::moment_of(c.not_after@));
            &&& from is Some && clock::days_apart(from->0, (now.secs, now.nanos)) == Some(until)
            &&& to is Some && clock::days_apart(to->0, (now.secs, now.nanos)) == Some(left)
        }),
    ensures
        ({
            let t = r->Ok_0@;
            let c = chain_member(set, k);
            let name = report::short_name(c.subject@);
            let from = clock::moment_of(c.not_before@)->0;
            let early = now.secs < from.0 || (now.secs == from.0 && now.nanos < from.1);
            &&& in_date(c, now) ==> text::within(
                t,
                "["@ + name + "] OK ("@ + text::signed_decimal(left as int) + "d left)"@,
            )
            &&& early ==> text::within(
                t,
                "["@ + name + "] FAILED: "@ + ("not yet valid ("@ + text::signed_decimal(until as int)
                    + "d until notBefore)"@),
            )
            &&& !early && !in_date(c, now) ==> text::within(
                t,
                "["@ + name + "] FAILED: "@ + ("expired ("@ + text::signed_decimal(left as int)
                    + "d until notAfter)"@),
            )
        }),
{
    let leaf = set.leaf->0;
    let climbed = climb(leaf, set.intermediates@);
    let cs = elements(leaf, set.intermediates@, climbed.path);
    let root = climbed.end is Root;
    let log = lemma_report_parts(set, now, r);
    let c = cs[k];
    assert(c == chain_member(set, k));
    windows_tell_sides(c, now);
    let notes = window_notes(cs, now);
    let list = text::joined(notes, ", "@);
    text::joined_holds_parts(notes, ", "@, k);
    let part = window_note(c, now);
    assert(notes[k] == part);
    let a = report::field_text(
        "Chain"@,
        text::decimal(cs.len()) + " element(s): "@ + text::joined(names(cs), " -> "@),
    );
    let b = report::field_text("Trust anchor"@, anchor_note(cs, set.intermediates@.len() > 0, root));
    let d = report::field_text("Key match"@, key_note(leaf, set.key));
    let six = report::field_text("Overall"@, verdict(failures(leaf, set.key, cs, now), root));
    lemma_regrouped(a, b, log_text(log), d, report::field_text("Validity"@, list) + six);
    lemma_within_field(a + b + log_text(log) + d, "Validity"@, list, six, part);
}

proof fn lemma_failure_listed(cs: Seq<Certificate>, now: Moment, k: int) -> (i: int)
    requires
        0 <= k < cs.len(),
        window(cs[k], now) is Err,
    ensures
        0 <= i < window_failures(cs, now).len(),
        window_failures(cs, now)[i] == "validity: ["@ + report::short_name(cs[k].subject@) + "] "@
            + window(cs[k], now)->Err_0,
    decreases cs.len(),
{
    let rest = cs.drop_last();
    if k == cs.len() - 1 {
        window_failures(rest, now).len() as int
    } else {
        assert(rest[k] == cs[k]);
        lemma_failure_listed(rest, now, k)
    }
}

proof fn lemma_listed_in_verdict(failed: Seq<Seq<char>>, root: bool, i: int)
    requires
        0 <= i < failed.len(),
    ensures
        text::within(verdict(failed, root), failed[i]),
{
    text::joined_holds_parts(failed, "; "@, i);
    text::lemma_within_part("FAIL ("@, text::joined(failed, "; "@), ")"@, failed[i]);
}

/// The verdict names everything that speaks against a set: that the private key does not belong to the
/// leaf, and every certificate of the chain that is not in date.
pub proof fn reports_name_failures(set: CertSet, now: Moment, r: Result<String, String>, k: int)
    requires
        verified(set, now, r),
        r is Ok,
        0 <= k <= climb(set.leaf->0, set.intermediates@).path.len(),
    ensures
        ({
            let t = r->Ok_0@;
            let c = chain_member(set, k);
            let name = report::short_name(c.subject@);
            &&& set.key matches Some(key) ==> (!crypto::x509_matches_key(set.leaf->0.der@, key.der@)
                ==> text::within(t, "private key does not match the certificate"@))
            &&& !in_date(c, now) ==> exists|e: Seq<char>|
                window(c, now) == Err::<i64, Seq<char>>(e) && #[trigger] text::within(
                    t,
                    "validity: ["@ + name + "] "@ + e,
                )
        }),
{
    let leaf = set.leaf->0;
    let climbed = climb(leaf, set.intermediates@);
    let cs = elements(leaf, set.intermediates@, climbed.path);
    let root = climbed.end is Root;
    let log = lemma_report_parts(set, now, r);
    let c = cs[k];
    assert(c == chain_member(set, k));
    windows_tell_sides(c, now);
    let failed = failures(leaf, set.key, cs, now);
    let front = lemma_report_tail(set, now, r);
    let v = verdict(failed, root);
    if !key_fits(leaf, set.key) {
        let s = "private key does not match the certificate"@;
        assert(failed[0] == s);
        lemma_listed_in_verdict(failed, root, 0);
        text::lemma_within_part(front + "\nOverall    : "@, v, "\n"@, s);
    }
    if !in_date(c, now) {
        let e = window(c, now)->Err_0;
        let s = "validity: ["@ + report::short_name(c.subject@) + "] "@ + e;
        let i = lemma_failure_listed(cs, now, k);
        let n = failed.len() - window_failures(cs, now).len();
        assert(failed[n + i] == s);
        lemma_listed_in_verdict(failed, root, n + i);
        text::lemma_within_part(front + "\nOverall    : "@, v, "\n"@, s);
        assert(text::within(r->Ok_0@, s));
    }
}

proof fn lemma_climb_logs(
    leaf: Certificate,
    ints: Seq<(String, Certificate)>,
    path: Seq<int>,
    log: Seq<LogLine>,
    k: int,
)
    requires
        path.no_duplicates(),
        forall|j: int| 0 <= j < path.len() ==> 0 <= #[trigger] path[j] < ints.len(),
    ensures
        ({
            let c = climb_from(leaf, ints, path, log);
            let cs = elements(leaf, ints, c.path);
            &&& path.len() <= c.path.len()
            &&& forall|j: int| 0 <= j < path.len() ==> #[trigger] c.path[j] == path[j]
            &&& forall|j: int| 0 <= j < log.len() ==> c.log.contains(#[trigger] log[j])
            &&& path.len() <= k < c.path.len() ==> c.log.contains(
                LogLine::Text(signed_line(cs[k], cs[k + 1])),
            )
            &&& c.end is NoIssuer ==> c.log.contains(LogLine::Text(no_issuer_line(cs.last())))
        }),
    decreases ints.len() + 1 - path.len(),
{
    let last = elements(leaf, ints, path).last();
    let c = climb_from(leaf, ints, path, log);
    lemma_distinct(path, ints.len());
    if self_signed(last) {
        assert forall|j: int| 0 <= j < log.len() implies c.log.contains(#[trigger] log[j]) by {
            assert(c.log[j] == log[j]);
        }
    } else {
        match stop(last, ints, path, 0) {
            Some(i) => {
                lemma_stop(last, ints, path, 0);
                if ints[i].1.key is Err {
                    assert forall|j: int| 0 <= j < log.len() implies c.log.contains(
                        #[trigger] log[j],
                    ) by {
                        assert(c.log[j] == log[j]);
                    }
                } else {
                    let line = LogLine::Text(signed_line(last, ints[i].1));
                    let so_far = log + untested(last, ints, path, 0);
                    let more = so_far.push(line);
                    let further = path.push(i);
                    lemma_climb_logs(leaf, ints, further, more, k);
                    assert forall|j: int| 0 <= j < log.len() implies c.log.contains(
                        #[trigger] log[j],
                    ) by {
                        assert(more[j] == log[j]);
                    }
                    assert(more[so_far.len() as int] == line);
                    assert(c.log.contains(more[so_far.len() as int]));
                    let cs = elements(leaf, ints, c.path);
                    let n = path.len() as int;
                    assert(c.path[n] == further[n]);
                    if n > 0 {
                        assert(c.path[n - 1] == further[n - 1]);
                    }
                    assert(cs[n] == last);
                    assert(cs[n + 1] == ints[i].1);
                    assert forall|j: int| 0 <= j < path.len() implies #[trigger] c.path[j] == path[j] by {
                        assert(further[j] == path[j]);
                    }
                }
            },
            None => {
                let line = LogLine::Text(no_issuer_line(last));
                let so_far = log + untested(last, ints, path, 0);
                assert(c.log == so_far.push(line));
                assert(c.log[so_far.len() as int] == line);
                assert forall|j: int| 0 <= j < log.len() implies c.log.contains(#[trigger] log[j]) by {
                    assert(c.log[j] == log[j]);
                }
            },
        }
    }
}

proof fn lemma_log_line(log: Seq<Seq<char>>, i: int)
    requires
        0 <= i < log.len(),
    ensures
        text::on_line(log_text(log), "           "@ + log[i]),
    decreases log.len(),
{
    let before = log_text(log.drop_last());
    let pad = "           "@;
    lemma_log_closed(log.drop_last());
    lemma_indented(before, pad, log.last());
    if i == log.len() - 1 {
        text::lemma_on_line(before, pad + log[i], Seq::empty());
    } else {
        lemma_log_line(log.drop_last(), i);
        text::lemma_line_followed(before, pad + log[i], pad + log.last() + "\n"@);
    }
}

proof fn lemma_indented(before: Seq<char>, pad: Seq<char>, line: Seq<char>)
    ensures
        before + pad + line + "\n"@ == before + ((pad + line) + seq!['\n']) + Seq::<char>::empty(),
        before + pad + line + "\n"@ == before + (pad + line + "\n"@),
{
    reveal_strlit("\n");
    assert("\n"@ =~= seq!['\n']);
    assert(before + pad + line + "\n"@ =~= before + ((pad + line) + seq!['\n'])
        + Seq::<char>::empty());
    assert(before + pad + line + "\n"@ =~= before + (pad + line + "\n"@));
}

proof fn lemma_logged(set: CertSet, now: Moment, r: Result<String, String>, line: Seq<char>)
    requires
        verified(set, now, r),
        r is Ok,
        climb(set.leaf->0, set.intermediates@).log.contains(LogLine::Text(line)),
    ensures
        text::on_line(r->Ok_0@, "           "@ + line),
{
    let leaf = set.leaf->0;
    let c = climb(leaf, set.intermediates@);
    let cs = elements(leaf, set.intermediates@, c.path);
    let root = c.end is Root;
    let log = lemma_report_parts(set, now, r);
    let i = choose|i: int| 0 <= i < c.log.len() && c.log[i] == LogLine::Text(line);
    assert(says(log[i], c.log[i]));
    lemma_log_line(log, i);
    let a = report::field_text(
        "Chain"@,
        text::decimal(cs.len()) + " element(s): "@ + text::joined(names(cs), " -> "@),
    );
    let note = anchor_note(cs, set.intermediates@.len() > 0, root);
    let b = report::field_text("Trust anchor"@, note);
    let d = report::field_text("Key match"@, key_note(leaf, set.key));
    let rest = report::field_text("Validity"@, text::joined(window_notes(cs, now), ", "@))
        + report::field_text("Overall"@, verdict(failures(leaf, set.key, cs, now), root));
    let whole = "           "@ + line;
    text::lemma_line_followed(log_text(log), whole, d + rest);
    lemma_field_ends("Trust anchor"@, note);
    lemma_lines_close(a, b, Seq::empty());
    assert(a + b + Seq::<char>::empty() =~= a + b);
    report::lemma_line_preceded(a + b, log_text(log) + (d + rest), whole);
    lemma_regrouped(a, b, log_text(log), d, rest);
}

/// The report on a set says of every certificate of the chain but the last which one signed it, and of
/// the last one, where the chain is not anchored, that no issuer was found.
pub proof fn reports_log_signatures(set: CertSet, now: Moment, r: Result<String, String>, k: int)
    requires
        verified(set, now, r),
        r is Ok,
        0 <= k <= climb(set.leaf->0, set.intermediates@).path.len(),
    ensures
        ({
            let t = r->Ok_0@;
            let n = climb(set.leaf->0, set.intermediates@).path.len();
            let name = |j: int| report::short_name(chain_member(set, j).subject@);
            &&& k < n ==> text::on_line(
                t,
                "           "@ + ("sig OK: ["@ + name(k) + "] signed by ["@ + name(k + 1) + "]"@),
            )
            &&& !anchored(set) ==> text::on_line(
                t,
                "           "@ + ("no issuer found for ["@ + name(n as int)
                    + "] among loaded intermediates"@),
            )
        }),
{
    let leaf = set.leaf->0;
    let ints = set.intermediates@;
    let c = climb(leaf, ints);
    let cs = elements(leaf, ints, c.path);
    lemma_climb_logs(leaf, ints, Seq::empty(), Seq::empty(), k);
    lemma_sound_set(set, now);
    let n = c.path.len() as int;
    assert(cs[k] == chain_member(set, k));
    assert(cs.last() == chain_member(set, n));
    if k < n {
        assert(cs[k + 1] == chain_member(set, k + 1));
        lemma_logged(set, now, r, signed_line(cs[k], cs[k + 1]));
    }
    if !anchored(set) {
        assert(c.end is NoIssuer);
        lemma_logged(set, now, r, no_issuer_line(cs.last()));
    }
}

proof fn lemma_untested_listed(
    last: Certificate,
    ints: Seq<(String, Certificate)>,
    path: Seq<int>,
    from: int,
    j: int,
)
    requires
        0 <= from <= j < ints.len(),
        forall|i: int| from <= i <= j ==> !#[trigger] stops_at(last, ints, path, i),
        !path.contains(j),
        crypto::x509_signed_by(last.der@, ints[j].1.der@) is None,
    ensures
        untested(last, ints, path, from).contains(LogLine::Untested(j)),
    decreases j - from,
{
    assert(!stops_at(last, ints, path, from));
    let all = untested(last, ints, path, from);
    let rest = untested(last, ints, path, from + 1);
    if from == j {
        assert(all[0] == LogLine::Untested(j));
    } else {
        lemma_untested_listed(last, ints, path, from + 1, j);
        let i = choose|i: int| 0 <= i < rest.len() && rest[i] == LogLine::Untested(j);
        if !path.contains(from) && crypto::x509_signed_by(last.der@, ints[from].1.der@) is None {
            assert(all[i + 1] == rest[i]);
        } else {
            assert(all == rest);
        }
    }
}

proof fn lemma_no_stop_before(
    last: Certificate,
    ints: Seq<(String, Certificate)>,
    path: Seq<int>,
    j: int,
)
    requires
        0 <= j < ints.len(),
        stop(last, ints, path, 0) matches Some(i) ==> j < i,
    ensures
        forall|i: int| 0 <= i <= j ==> !#[trigger] stops_at(last, ints, path, i),
{
    lemma_stop_first(last, ints, path, 0);
    assert forall|i: int| 0 <= i <= j implies !#[trigger] stops_at(last, ints, path, i) by {
        if !path.contains(i) {
            assert(!carries_on(last, ints[i].1));
        }
    }
}

proof fn lemma_climb_notes(
    leaf: Certificate,
    ints: Seq<(String, Certificate)>,
    path: Seq<int>,
    log: Seq<LogLine>,
    k: int,
    j: int,
)
    requires
        path.no_duplicates(),
        forall|i: int| 0 <= i < path.len() ==> 0 <= #[trigger] path[i] < ints.len(),
        0 <= j < ints.len(),
        ({
            let c = climb_from(leaf, ints, path, log);
            let cs = elements(leaf, ints, c.path);
            &&& path.len() <= k <= c.path.len()
            &&& k < c.path.len() || c.end is NoIssuer
            &&& k < c.path.len() ==> j < c.path[k]
            &&& !c.path.take(k).contains(j)
            &&& crypto::x509_signed_by(cs[k].der@, ints[j].1.der@) is None
        }),
    ensures
        climb_from(leaf, ints, path, log).log.contains(LogLine::Untested(j)),
    decreases ints.len() + 1 - path.len(),
{
    let last = elements(leaf, ints, path).last();
    let c = climb_from(leaf, ints, path, log);
    let cs = elements(leaf, ints, c.path);
    let n = path.len() as int;
    lemma_distinct(path, ints.len());
    lemma_climb_logs(leaf, ints, path, log, k);
    if n > 0 {
        assert(c.path[n - 1] == path[n - 1]);
    }
    assert(cs[n] == last);
    let notes = untested(last, ints, path, 0);
    let so_far = log + notes;
    if k == n {
        assert(c.path.take(k) =~= path);
        match stop(last, ints, path, 0) {
            Some(i) => {
                lemma_stop(last, ints, path, 0);
                let line = LogLine::Text(signed_line(last, ints[i].1));
                let more = so_far.push(line);
                let further = path.push(i);
                lemma_climb_logs(leaf, ints, further, more, k);
                assert(c.path[n] == further[n]);
                lemma_no_stop_before(last, ints, path, j);
                lemma_untested_listed(last, ints, path, 0, j);
                let m = choose|m: int| 0 <= m < notes.len() && notes[m] == LogLine::Untested(j);
                assert(more[log.len() + m] == notes[m]);
                assert(c.log.contains(more[log.len() + m]));
            },
            None => {
                lemma_no_stop_before(last, ints, path, j);
                lemma_untested_listed(last, ints, path, 0, j);
                let m = choose|m: int| 0 <= m < notes.len() && notes[m] == LogLine::Untested(j);
                assert(c.log[log.len() + m] == notes[m]);
            },
        }
    } else {
        let i = stop(last, ints, path, 0)->0;
        lemma_stop(last, ints, path, 0);
        let line = LogLine::Text(signed_line(last, ints[i].1));
        lemma_climb_notes(leaf, ints, path.push(i), so_far.push(line), k, j);
    }
}

proof fn lemma_line_within(t: Seq<char>, line: Seq<char>, start: Seq<char>)
    requires
        text::on_line(t, line),
        text::begins(line, start),
    ensures
        text::within(t, start),
{
    let i = choose|i: int|
        0 <= i && i + line.len() < t.len() && #[trigger] t.subrange(i, i + line.len()) == line && t[i
            + line.len()] == '\n' && (i == 0 || t[i - 1] == '\n');
    assert(t.subrange(i, i + start.len()) =~= t.subrange(i, i + line.len()).subrange(
        0,
        start.len() as int,
    ));
}

/// The report on a set tells of every intermediate that was tried for a certificate of the chain, before
/// the one that signed it, that the signature could not be tested with its key, where that is so.
pub proof fn reports_log_failed_tests(
    set: CertSet,
    now: Moment,
    r: Result<String, String>,
    k: int,
    j: int,
)
    requires
        verified(set, now, r),
        r is Ok,
        0 <= j < set.intermediates@.len(),
        ({
            let path = climb(set.leaf->0, set.intermediates@).path;
            &&& 0 <= k <= path.len()
            &&& k < path.len() ==> j < path[k]
            &&& k == path.len() ==> !anchored(set)
            &&& !path.take(k).contains(j)
            &&& crypto::x509_signed_by(chain_member(set, k).der@, set.intermediates@[j].1.der@) is None
        }),
    ensures
        text::within(
            r->Ok_0@,
            "           "@ + ("error testing candidate #"@ + text::decimal(j as nat) + ": "@),
        ),
{
    let leaf = set.leaf->0;
    let ints = set.intermediates@;
    let c = climb(leaf, ints);
    let cs = elements(leaf, ints, c.path);
    let root = c.end is Root;
    lemma_sound_set(set, now);
    assert(cs[k] == chain_member(set, k));
    lemma_climb_notes(leaf, ints, Seq::empty(), Seq::empty(), k, j);
    let log = lemma_report_parts(set, now, r);
    let i = choose|i: int| 0 <= i < c.log.len() && c.log[i] == LogLine::Untested(j);
    assert(says(log[i], c.log[i]));
    lemma_log_line(log, i);
    let pad = "           "@;
    let start = pad + untested_start(j);
    let line = pad + log[i];
    assert(line.subrange(0, start.len() as int) =~= pad + log[i].subrange(
        0,
        untested_start(j).len() as int,
    ));
    lemma_line_within(log_text(log), line, start);
    let a = report::field_text(
        "Chain"@,
        text::decimal(cs.len()) + " element(s): "@ + text::joined(names(cs), " -> "@),
    );
    let b = report::field_text("Trust anchor"@, anchor_note(cs, ints.len() > 0, root));
    let d = report::field_text("Key match"@, key_note(leaf, set.key));
    let rest = report::field_text("Validity"@, text::joined(window_notes(cs, now), ", "@))
        + report::field_text("Overall"@, verdict(failures(leaf, set.key, cs, now), root));
    lemma_regrouped(a, b, log_text(log), d, rest);
    text::lemma_within_part(a + b, log_text(log), d + rest, start);
    lemma_inner_part(a + b, log_text(log), d + rest);
}

proof fn lemma_inner_part(a: Seq<char>, l: Seq<char>, b: Seq<char>)
    ensures
        a + l + b == a + (l + b),
{
    assert(a + l + b =~= a + (l + b));
}

} // verus!
