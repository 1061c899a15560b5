//! Certificate sets: a leaf certificate, intermediate certificates and a private key.
use vstd::prelude::*;
use vstd::string::*;
use vstd::utf8::*;
use crate::clock;
use crate::clock::Moment;
use crate::crypto;
use crate::crypto::{Certificate, PrivateKey};
use crate::pem;
use crate::report;
use crate::text;

verus! {

/// Which component of a set a file is loaded for.
#[derive(Debug, Clone, Copy, PartialEq, Eq, Structural)]
pub enum LoadSlot {
    Leaf,
    Intermediates,
    Key,
}

/// What a file holds for a component.
#[derive(Debug)]
pub enum ExtractedMaterial {
    Certificate(Certificate),
    Certificates(Vec<Certificate>),
    PrivateKey(PrivateKey),
}

impl ExtractedMaterial {
    /// Whether the encodings of the material are read back as they are.
    pub open spec fn canonical(self) -> bool {
        match self {
            ExtractedMaterial::Certificate(c) => c.canonical(),
            ExtractedMaterial::Certificates(v) => forall|i: int|
                0 <= i < v@.len() ==> (#[trigger] v@[i]).canonical(),
            ExtractedMaterial::PrivateKey(k) => k.canonical(),
        }
    }
}

/// What decoding a section gives, as far as it counts here: the DER encoding of a certificate or of
/// a private key. A section that is too long does not decode. For one that says it is encrypted
/// nothing is fixed.
pub open spec fn decodes_to(section: (Seq<char>, Seq<u8>), outcome: Option<Seq<u8>>) -> bool {
    let certificate = report::is_certificate_label(section.0);
    let key = report::is_plain_key_label(section.0);
    if !crypto::fits(section.1) {
        certificate || key ==> outcome is None
    } else {
        !crypto::says_encrypted(section.1) ==> {
            &&& certificate ==> outcome == crypto::x509_of_pem(section.1)
            &&& key ==> outcome == crypto::private_key_of_pem(section.1)
        }
    }
}

/// Whether `outcomes` is what decoding the sections gives.
pub open spec fn decode_to(
    sections: Seq<(Seq<char>, Seq<u8>)>,
    outcomes: Seq<Option<Seq<u8>>>,
) -> bool {
    &&& outcomes.len() == sections.len()
    &&& forall|i: int|
        0 <= i < sections.len() ==> decodes_to(sections[i], #[trigger] outcomes[i])
}

/// All certificates in the sections that decode, in order.
pub open spec fn certificates_in(
    sections: Seq<(Seq<char>, Seq<u8>)>,
    outcomes: Seq<Option<Seq<u8>>>,
) -> Seq<Seq<u8>>
    decreases sections.len(),
{
    if sections.len() == 0 {
        Seq::empty()
    } else {
        let before = certificates_in(sections.drop_last(), outcomes.drop_last());
        if report::is_certificate_label(sections.last().0) && outcomes.last() is Some {
            before.push(outcomes.last()->0)
        } else {
            before
        }
    }
}

/// The first private key in the sections that decodes.
pub open spec fn key_in(
    sections: Seq<(Seq<char>, Seq<u8>)>,
    outcomes: Seq<Option<Seq<u8>>>,
) -> Option<Seq<u8>>
    decreases sections.len(),
{
    if sections.len() == 0 {
        None
    } else {
        let before = key_in(sections.drop_last(), outcomes.drop_last());
        if before is None && report::is_plain_key_label(sections.last().0) {
            outcomes.last()
        } else {
            before
        }
    }
}

/// Whether `certs` are the certificates with the given encodings.
pub open spec fn are_certificates(certs: Seq<Certificate>, ders: Seq<Seq<u8>>) -> bool {
    &&& certs.len() == ders.len()
    &&& forall|i: int| 0 <= i < certs.len() ==> crypto::is_certificate(#[trigger] certs[i], ders[i])
}

/// Whether `key` is the private key with the given encoding.
pub open spec fn is_key(key: Option<PrivateKey>, der: Option<Seq<u8>>) -> bool {
    match key {
        Some(k) => der is Some && crypto::is_private_key(k, der->0),
        None => der is None,
    }
}

/// Whether `certs` and `key` are what a file with the contents `raw` holds: of a PEM file all its
/// certificates and its first private key, of a DER file the certificate or else the private key.
pub open spec fn gathered(
    raw: Seq<u8>,
    certs: Seq<Certificate>,
    key: Option<PrivateKey>,
) -> bool {
    if text::occurs(text::utf8_lossy(raw), "-----BEGIN "@) {
        let sections = pem::pem_sections(raw);
        exists|outcomes: Seq<Option<Seq<u8>>>| #[trigger]
            decode_to(sections, outcomes) && are_certificates(
                certs,
                certificates_in(sections, outcomes),
            ) && is_key(key, key_in(sections, outcomes))
    } else if crypto::x509_of_der(raw) is Some {
        are_certificates(certs, seq![crypto::x509_of_der(raw)->0]) && key is None
    } else {
        certs.len() == 0 && is_key(key, crypto::private_key_of_der(raw))
    }
}

/// Whether `r` is what `slot` gets of some certificates and perhaps a key: the first certificate,
/// all certificates, or the key; an error, where that is missing.
pub open spec fn selected(
    certs: Seq<Certificate>,
    key: Option<PrivateKey>,
    slot: LoadSlot,
    r: Result<ExtractedMaterial, String>,
) -> bool {
    match slot {
        LoadSlot::Leaf => if certs.len() > 0 {
            r matches Ok(ExtractedMaterial::Certificate(c)) && c == certs[0]
        } else {
            r matches Err(e) && e@ == "no certificate found in this file"@
        },
        LoadSlot::Intermediates => if certs.len() > 0 {
            r matches Ok(ExtractedMaterial::Certificates(v)) && v@ == certs
        } else {
            r matches Err(e) && e@ == "no certificates found in this file"@
        },
        LoadSlot::Key => match key {
            Some(k) => r matches Ok(ExtractedMaterial::PrivateKey(found)) && found == k,
            None => r matches Err(e) && e@ == "no private key found in this file"@,
        },
    }
}

/// All certificates and the first private key that a file with the contents `raw` holds.
pub fn gather_material(raw: &Vec<u8>) -> (r: (Vec<Certificate>, Option<PrivateKey>))
    ensures
        gathered(raw@, r.0@, r.1),
        forall|i: int| 0 <= i < r.0@.len() ==> (#[trigger] r.0@[i]).canonical(),
        r.1 matches Some(k) ==> k.canonical(),
{
    let mut certs: Vec<Certificate> = Vec::new();
    let mut key: Option<PrivateKey> = None;
    if text::contains(&text::decode_lossy(raw), "-----BEGIN ") {
        let list: Vec<(String, Vec<u8>)> = pem::split_pem(raw);
        let ghost all = pem::sections_view(list@);
        let ghost mut outcomes: Seq<Option<Seq<u8>>> = Seq::empty();
        let mut i: usize = 0;
        assert(all.take(0) =~= Seq::empty());
        while i < list.len()
            invariant
                i <= list@.len(),
                all == pem::sections_view(list@),
                decode_to(all.take(i as int), outcomes),
                are_certificates(certs@, certificates_in(all.take(i as int), outcomes)),
                is_key(key, key_in(all.take(i as int), outcomes)),
                forall|j: int| 0 <= j < certs@.len() ==> (#[trigger] certs@[j]).canonical(),
                key matches Some(k) ==> k.canonical(),
            decreases list.len() - i,
        {
            let label: &String = &list[i].0;
            let block: &Vec<u8> = &list[i].1;
            let ghost section = (label@, block@);
            let ghost mut outcome: Option<Seq<u8>> = None;
            let ghost certs_before = certs@;
            if report::certificate_label(label) {
                match Certificate::from_pem(block) {
                    Ok(c) => {
                        proof {
                            outcome = Some(c.der@);
                        }
                        certs.push(c);
                    },
                    Err(_) => {},
                }
                proof {
                    lemma_labels_differ(label@);
                }
            } else if report::plain_key_label(label) {
                if key.is_none() {
                    match PrivateKey::from_pem(block) {
                        Ok(k) => {
                            proof {
                                outcome = Some(k.der@);
                            }
                            key = Some(k);
                        },
                        Err(_) => {},
                    }
                } else {
                    proof {
                        outcome = if crypto::fits(block@) {
                            crypto::private_key_of_pem(block@)
                        } else {
                            None
                        };
                    }
                }
            }
            proof {
                let next = all.take(i + 1);
                let more = outcomes.push(outcome);
                assert(next.drop_last() =~= all.take(i as int));
                assert(more.drop_last() =~= outcomes);
                assert(next.last() == section);
                assert forall|j: int| 0 <= j < next.len() implies decodes_to(
                    next[j],
                    #[trigger] more[j],
                ) by {
                    if j < i {
                        assert(decodes_to(all.take(i as int)[j], outcomes[j]));
                    }
                }
                outcomes = more;
            }
            i += 1;
        }
        assert(all.take(i as int) =~= all);
        assert(decode_to(all, outcomes));
    } else {
        match Certificate::from_der(raw) {
            Some(c) => {
                certs.push(c);
            },
            None => {
                key = PrivateKey::from_der(raw);
            },
        }
    }
    (certs, key)
}

proof fn lemma_labels_differ(label: Seq<char>)
    requires
        report::is_certificate_label(label),
    ensures
        !report::is_plain_key_label(label),
{
    reveal_strlit("CERTIFICATE");
    reveal_strlit("X509 CERTIFICATE");
    reveal_strlit("TRUSTED CERTIFICATE");
    reveal_strlit("PRIVATE KEY");
    reveal_strlit("RSA PRIVATE KEY");
    reveal_strlit("EC PRIVATE KEY");
    assert(label.last() == 'E');
    if report::is_plain_key_label(label) {
        assert(label.last() == 'Y');
    }
}

/// Picks what `slot` needs.
pub fn select_material(
    certs: Vec<Certificate>,
    key: Option<PrivateKey>,
    slot: LoadSlot,
) -> (r: Result<ExtractedMaterial, String>)
    ensures
        selected(certs@, key, slot, r),
{
    let mut certs = certs;
    match slot {
        LoadSlot::Leaf => if certs.len() > 0 {
            Ok(ExtractedMaterial::Certificate(certs.remove(0)))
        } else {
            Err("no certificate found in this file".to_string())
        },
        LoadSlot::Intermediates => if certs.len() > 0 {
            Ok(ExtractedMaterial::Certificates(certs))
        } else {
            Err("no certificates found in this file".to_string())
        },
        LoadSlot::Key => match key {
            Some(k) => Ok(ExtractedMaterial::PrivateKey(k)),
            None => Err("no private key found in this file".to_string()),
        },
    }
}

/// Pulls the material for `slot` out of a file with the contents `raw`: the first certificate, all
/// certificates, or the first private key.
pub fn extract_material(raw: &Vec<u8>, slot: LoadSlot) -> (r: Result<ExtractedMaterial, String>)
    ensures
        exists|certs: Seq<Certificate>, key: Option<PrivateKey>|
            gathered(raw@, certs, key) && selected(certs, key, slot, r),
        r matches Ok(m) ==> m.canonical(),
{
    let (certs, key) = gather_material(raw);
    let ghost list = certs@;
    let r = select_material(certs, key, slot);
    assert(gathered(raw@, list, key) && selected(list, key, slot, r));
    r
}

/// A certificate set under assembly.
pub struct CertSet {
    pub id: usize,
    pub title: String,
    pub leaf_path: Option<String>,
    pub leaf: Option<Certificate>,
    pub intermediates: Vec<(String, Certificate)>,
    pub key_path: Option<String>,
    pub key: Option<PrivateKey>,
    /// The report of the verification, once it has run on the set as it is.
    pub verification: Option<String>,
    /// Grows with every change, so that views know when to render anew.
    pub version: u64,
}

/// The title of the set with the number `n`.
pub open spec fn set_title(n: nat) -> Seq<char> {
    "Certificate Set #"@ + text::decimal(n)
}

/// A line of a detail block, moved in by two columns; blank lines are emptied.
pub open spec fn indented_line(line: Seq<char>) -> Seq<char> {
    if text::trimmed(line).len() == 0 {
        Seq::empty()
    } else {
        "  "@ + line
    }
}

/// The lines of a detail block, moved in.
pub open spec fn indented(block: Seq<char>) -> Seq<Seq<char>> {
    Seq::new(text::lines(block).len(), |i: int| indented_line(text::lines(block)[i]))
}

/// The lines on a loaded component.
pub open spec fn component_lines(heading: Seq<char>, path: Seq<char>, block: Seq<char>) -> Seq<
    Seq<char>,
> {
    seq![heading + "  ("@ + path + ")"@] + indented(block)
}

/// The lines on all intermediates.
pub open spec fn intermediate_lines(v: Seq<(String, Certificate)>, now: Moment) -> Seq<Seq<char>>
    decreases v.len(),
{
    if v.len() == 0 {
        Seq::empty()
    } else {
        intermediate_lines(v.drop_last(), now) + component_lines(
            "INTERMEDIATE #"@ + text::decimal(v.len()),
            v.last().0@,
            report::certificate_text(v.last().1, now),
        )
    }
}

impl CertSet {
    /// The names of the components that a set needs and has not got.
    pub open spec fn missing(self) -> Seq<Seq<char>> {
        let names = Seq::<Seq<char>>::empty();
        let names = if self.leaf is None {
            names.push("certificate"@)
        } else {
            names
        };
        if self.key is None {
            names.push("key"@)
        } else {
            names
        }
    }

    /// Whether the set has a certificate and a key.
    pub open spec fn complete(self) -> bool {
        self.leaf is Some && self.key is Some
    }

    /// The line that heads the set's window.
    pub open spec fn heading(self) -> Seq<char> {
        self.title@ + "   [cert "@ + (if self.leaf is Some {
            "OK"@
        } else {
            "--"@
        }) + "] [intermediate(s): "@ + text::decimal(self.intermediates@.len()) + "] [key "@ + (
        if self.key is Some {
            "OK"@
        } else {
            "--"@
        }) + "]"@
    }

    /// The lines on the leaf certificate.
    pub open spec fn leaf_lines(self, now: Moment) -> Seq<Seq<char>> {
        if self.leaf is Some && self.leaf_path is Some {
            component_lines(
                "LEAF CERTIFICATE"@,
                self.leaf_path->0@,
                report::certificate_text(self.leaf->0, now),
            )
        } else {
            seq!["LEAF CERTIFICATE  --  use File > Open Certificate..."@]
        }
    }

    /// The lines on the intermediates.
    pub open spec fn middle_lines(self, now: Moment) -> Seq<Seq<char>> {
        if self.intermediates@.len() == 0 {
            seq!["INTERMEDIATES     none loaded  --  use File > Open Intermediate... (optional)"@]
        } else {
            intermediate_lines(self.intermediates@, now)
        }
    }

    /// The lines on the private key.
    pub open spec fn key_lines(self) -> Seq<Seq<char>> {
        if self.key is Some && self.key_path is Some {
            component_lines(
                "PRIVATE KEY"@,
                self.key_path->0@,
                report::private_key_text(self.key->0, "PRIVATE KEY"@, false),
            )
        } else {
            seq!["PRIVATE KEY       --  use File > Open Key..."@]
        }
    }

    /// The lines on the verification: its report, or what it waits for.
    pub open spec fn verification_lines(self) -> Seq<Seq<char>> {
        indented(
            match self.verification {
                Some(report) => report@,
                None => if self.complete() {
                    "pending..."@
                } else {
                    "waiting for remaining components: "@ + text::joined(self.missing(), ", "@)
                },
            },
        )
    }

    /// The text of the set's window at the moment `now`.
    pub open spec fn window(self, now: Moment) -> Seq<Seq<char>> {
        seq![self.heading(), text::repeated('=', 60)] + self.leaf_lines(now) + self.middle_lines(
            now,
        ) + self.key_lines() + seq![Seq::<char>::empty(), "VERIFICATION"@, text::repeated('-', 60)]
            + self.verification_lines()
    }

    /// Whether the set is an empty one with a number.
    pub open spec fn fresh(self, id: usize) -> bool {
        &&& self.id == id
        &&& self.title@ == set_title(id as nat)
        &&& self.leaf_path is None && self.leaf is None
        &&& self.intermediates@.len() == 0
        &&& self.key_path is None && self.key is None
        &&& self.verification is None
        &&& self.version == 0
    }

    /// An empty set.
    pub fn new(id: usize) -> (s: CertSet)
        ensures
            s.fresh(id),
            s.id == id,
            s.title@ == set_title(id as nat),
            s.leaf_path is None,
            s.leaf is None,
            s.intermediates@.len() == 0,
            s.key_path is None,
            s.key is None,
            s.verification is None,
            s.version == 0,
    {
        let mut title: String = "Certificate Set #".to_string();
        title.append(&text::dec_usize(id));
        CertSet {
            id,
            title,
            leaf_path: None,
            leaf: None,
            intermediates: Vec::new(),
            key_path: None,
            key: None,
            verification: None,
            version: 0,
        }
    }

    /// The names of the components that the set needs and has not got.
    pub fn missing_components(&self) -> (r: Vec<&'static str>)
        ensures
            Seq::new(r@.len(), |i: int| r@[i]@) == self.missing(),
    {
        let mut missing: Vec<&'static str> = Vec::new();
        if self.leaf.is_none() {
            missing.push("certificate");
        }
        if self.key.is_none() {
            missing.push("key");
        }
        assert(Seq::new(missing@.len(), |i: int| missing@[i]@) =~= self.missing());
        missing
    }

    /// Whether the set has a certificate and a key.
    pub fn is_complete(&self) -> (r: bool)
        ensures
            r == self.complete(),
    {
        self.leaf.is_some() && self.key.is_some()
    }

    /// Puts a leaf certificate into the set. What was verified before no longer counts.
    pub fn load_leaf(&mut self, path: &str, cert: Certificate)
        requires
            old(self).version < u64::MAX,
        ensures
            final(self).leaf_path is Some,
            final(self).leaf_path->0@ == path@,
            final(self).leaf == Some(cert),
            final(self).verification is None,
            final(self).version == old(self).version + 1,
            final(self).id == old(self).id,
            final(self).title == old(self).title,
            final(self).intermediates == old(self).intermediates,
            final(self).key_path == old(self).key_path,
            final(self).key == old(self).key,
    {
        self.leaf_path = Some(path.to_string());
        self.leaf = Some(cert);
        self.verification = None;
        self.version = self.version + 1;
    }

    /// Adds intermediate certificates to the set, after those it has. What was verified before no
    /// longer counts.
    pub fn load_intermediates(&mut self, path: &str, certs: Vec<Certificate>)
        requires
            old(self).version < u64::MAX,
        ensures
            final(self).intermediates@.len() == old(self).intermediates@.len() + certs@.len(),
            final(self).intermediates@.take(old(self).intermediates@.len() as int) == old(
                self,
            ).intermediates@,
            forall|i: int|
                0 <= i < certs@.len() ==> {
                    let added = #[trigger] final(self).intermediates@[old(
                        self,
                    ).intermediates@.len() + i];
                    added.0@ == path@ && added.1 == certs@[i]
                },
            final(self).verification is None,
            final(self).version == old(self).version + 1,
            final(self).id == old(self).id,
            final(self).title == old(self).title,
            final(self).leaf_path == old(self).leaf_path,
            final(self).leaf == old(self).leaf,
            final(self).key_path == old(self).key_path,
            final(self).key == old(self).key,
    {
        let ghost before = self.intermediates@;
        let ghost all = certs@;
        let mut certs = certs;
        let mut count: Ghost<nat> = Ghost(0);
        while certs.len() > 0
            invariant
                count@ + certs@.len() == all.len(),
                certs@ == all.skip(count@ as int),
                before == old(self).intermediates@,
                self.intermediates@.len() == before.len() + count@,
                self.intermediates@.take(before.len() as int) == before,
                forall|i: int|
                    0 <= i < count@ ==> {
                        let added = #[trigger] self.intermediates@[before.len() + i];
                        added.0@ == path@ && added.1 == all[i]
                    },
                self.version == old(self).version,
                self.id == old(self).id,
                self.title == old(self).title,
                self.leaf_path == old(self).leaf_path,
                self.leaf == old(self).leaf,
                self.key_path == old(self).key_path,
                self.key == old(self).key,
            decreases certs.len(),
        {
            let ghost list = self.intermediates@;
            let cert: Certificate = certs.remove(0);
            self.intermediates.push((path.to_string(), cert));
            proof {
                assert(self.intermediates@.take(before.len() as int) =~= list.take(
                    before.len() as int,
                ));
                count@ = count@ + 1;
                assert(certs@ =~= all.skip(count@ as int));
            }
        }
        self.verification = None;
        self.version = self.version + 1;
    }

    /// Puts a private key into the set. What was verified before no longer counts.
    pub fn load_key(&mut self, path: &str, key: PrivateKey)
        requires
            old(self).version < u64::MAX,
        ensures
            final(self).key_path is Some,
            final(self).key_path->0@ == path@,
            final(self).key == Some(key),
            final(self).verification is None,
            final(self).version == old(self).version + 1,
            final(self).id == old(self).id,
            final(self).title == old(self).title,
            final(self).leaf_path == old(self).leaf_path,
            final(self).leaf == old(self).leaf,
            final(self).intermediates == old(self).intermediates,
    {
        self.key_path = Some(path.to_string());
        self.key = Some(key);
        self.verification = None;
        self.version = self.version + 1;
    }

    /// Records the report of a verification.
    pub fn set_verification(&mut self, report: String)
        requires
            old(self).version < u64::MAX,
        ensures
            final(self).verification == Some(report),
            final(self).version == old(self).version + 1,
            final(self).id == old(self).id,
            final(self).title == old(self).title,
            final(self).leaf_path == old(self).leaf_path,
            final(self).leaf == old(self).leaf,
            final(self).intermediates == old(self).intermediates,
            final(self).key_path == old(self).key_path,
            final(self).key == old(self).key,
    {
        self.verification = Some(report);
        self.version = self.version + 1;
    }

    fn heading_line(&self) -> (r: String)
        ensures
            r@ == self.heading(),
    {
        let mut out: String = self.title.clone();
        out.append("   [cert ");
        out.append(if self.leaf.is_some() { "OK" } else { "--" });
        out.append("] [intermediate(s): ");
        out.append(&text::dec_usize(self.intermediates.len()));
        out.append("] [key ");
        out.append(if self.key.is_some() { "OK" } else { "--" });
        out.append("]");
        out
    }

    /// The text of the set's window at the moment `now`: the state of each component, its details,
    /// and the verification.
    pub fn render_at(&self, now: Moment) -> (r: Vec<String>)
        ensures
            text::texts(r@) == self.window(now),
    {
        let mut out: Vec<String> = Vec::new();
        text::push_text(&mut out, self.heading_line());
        text::push_text(&mut out, text::repeat('=', 60));
        assert(text::texts(out@) =~= seq![self.heading(), text::repeated('=', 60)]);
        match (&self.leaf, &self.leaf_path) {
            (Some(cert), Some(path)) => {
                push_component(
                    &mut out,
                    "LEAF CERTIFICATE",
                    path,
                    &report::cert_report(cert, now),
                );
            },
            _ => {
                push_line(&mut out, "LEAF CERTIFICATE  --  use File > Open Certificate...");
            },
        }
        if self.intermediates.len() == 0 {
            push_line(
                &mut out,
                "INTERMEDIATES     none loaded  --  use File > Open Intermediate... (optional)",
            );
        } else {
            push_intermediates(&mut out, &self.intermediates, now);
        }
        match (&self.key, &self.key_path) {
            (Some(key), Some(path)) => {
                push_component(
                    &mut out,
                    "PRIVATE KEY",
                    path,
                    &report::key_report(key, "PRIVATE KEY", false),
                );
            },
            _ => {
                push_line(&mut out, "PRIVATE KEY       --  use File > Open Key...");
            },
        }
        let ghost before = text::texts(out@);
        text::push_text(&mut out, String::new());
        text::push_text(&mut out, "VERIFICATION".to_string());
        text::push_text(&mut out, text::repeat('-', 60));
        assert(text::texts(out@) =~= before + seq![
            Seq::<char>::empty(),
            "VERIFICATION"@,
            text::repeated('-', 60),
        ]);
        match &self.verification {
            Some(report) => push_indented(&mut out, report),
            None => {
                if self.is_complete() {
                    push_indented(&mut out, "pending...");
                } else {
                    let mut names: Vec<String> = Vec::new();
                    if self.leaf.is_none() {
                        text::push_text(&mut names, "certificate".to_string());
                    }
                    if self.key.is_none() {
                        text::push_text(&mut names, "key".to_string());
                    }
                    assert(text::texts(names@) =~= self.missing());
                    let mut note: String = "waiting for remaining components: ".to_string();
                    note.append(&text::join(&names, ", "));
                    push_indented(&mut out, &note);
                }
            },
        }
        out
    }

    /// The text of the set's window. The days that certificates have left are counted from some
    /// moment.
    pub fn render(&self) -> (r: Vec<String>)
        ensures
            exists|now: Moment| text::texts(r@) == #[trigger] self.window(now),
    {
        self.render_at(clock::now())
    }
}

fn push_line(lines: &mut Vec<String>, line: &str)
    ensures
        text::texts(final(lines)@) == text::texts(old(lines)@) + seq![line@],
{
    text::push_text(lines, line.to_string());
    assert(text::texts(lines@) =~= text::texts(old(lines)@) + seq![line@]);
}

/// Appends the lines of a detail block, moved in by two columns.
pub fn push_indented(lines: &mut Vec<String>, block: &str)
    ensures
        text::texts(final(lines)@) == text::texts(old(lines)@) + indented(block@),
{
    let list: Vec<String> = text::lines_of(block);
    let ghost all = text::lines(block@);
    let mut i: usize = 0;
    assert(text::texts(lines@) =~= text::texts(old(lines)@) + indented(block@).take(0));
    while i < list.len()
        invariant
            i <= list@.len(),
            text::texts(list@) == all,
            all == text::lines(block@),
            text::texts(lines@) == text::texts(old(lines)@) + indented(block@).take(i as int),
        decreases list.len() - i,
    {
        let line: &String = &list[i];
        assert(all[i as int] == line@);
        if text::chars_of(&text::trim(line)).len() == 0 {
            text::push_text(lines, String::new());
        } else {
            let mut out: String = "  ".to_string();
            out.append(line);
            text::push_text(lines, out);
        }
        i += 1;
        assert(text::texts(lines@) =~= text::texts(old(lines)@) + indented(block@).take(i as int));
    }
    assert(indented(block@).take(i as int) =~= indented(block@));
}

fn push_component(lines: &mut Vec<String>, heading: &str, path: &str, block: &str)
    ensures
        text::texts(final(lines)@) == text::texts(old(lines)@) + component_lines(
            heading@,
            path@,
            block@,
        ),
{
    let mut line: String = heading.to_string();
    line.append("  (");
    line.append(path);
    line.append(")");
    let ghost first = line@;
    text::push_text(lines, line);
    push_indented(lines, block);
    assert(text::texts(lines@) =~= text::texts(old(lines)@) + (seq![first] + indented(block@)));
}

fn push_intermediates(lines: &mut Vec<String>, v: &Vec<(String, Certificate)>, now: Moment)
    ensures
        text::texts(final(lines)@) == text::texts(old(lines)@) + intermediate_lines(v@, now),
{
    let mut i: usize = 0;
    assert(v@.take(0) =~= Seq::empty());
    assert(text::texts(lines@) =~= text::texts(old(lines)@) + intermediate_lines(v@.take(0), now));
    while i < v.len()
        invariant
            i <= v@.len(),
            text::texts(lines@) == text::texts(old(lines)@) + intermediate_lines(
                v@.take(i as int),
                now,
            ),
        decreases v.len() - i,
    {
        let mut heading: String = "INTERMEDIATE #".to_string();
        heading.append(&text::dec_usize(i + 1));
        push_component(lines, &heading, &v[i].0, &report::cert_report(&v[i].1, now));
        i += 1;
        assert(v@.take(i as int).drop_last() =~= v@.take(i - 1));
        assert(text::texts(lines@) =~= text::texts(old(lines)@) + intermediate_lines(
            v@.take(i as int),
            now,
        ));
    }
    assert(v@.take(i as int) =~= v@);
}

/// What an export gives: the text, or why there is none.
pub open spec fn export_view(r: Result<String, &'static str>) -> Result<Seq<char>, Seq<char>> {
    match r {
        Ok(s) => Ok(s@),
        Err(e) => Err(e@),
    }
}

/// Bytes as text.
pub open spec fn utf8_export(bytes: Seq<u8>) -> Result<Seq<char>, Seq<char>> {
    if valid_utf8(bytes) {
        Ok(decode_utf8(bytes))
    } else {
        Err("PEM output is not valid UTF-8"@)
    }
}

/// The export of the leaf certificate as PEM.
pub open spec fn leaf_pem_export(leaf: Option<Certificate>) -> Result<Seq<char>, Seq<char>> {
    match leaf {
        Some(c) => match crypto::x509_pem(c.der@) {
            Some(bytes) => utf8_export(bytes),
            None => Err("failed to encode certificate as PEM"@),
        },
        None => Err("no certificate loaded"@),
    }
}

/// The export of the leaf certificate as text.
pub open spec fn leaf_text_export(leaf: Option<Certificate>, now: Moment) -> Result<
    Seq<char>,
    Seq<char>,
> {
    match leaf {
        Some(c) => Ok(report::certificate_text(c, now)),
        None => Err("no certificate loaded"@),
    }
}

/// The PEM encodings of all intermediates in a row; `None` where one does not encode.
pub open spec fn pem_bundle(v: Seq<(String, Certificate)>) -> Option<Seq<u8>>
    decreases v.len(),
{
    if v.len() == 0 {
        Some(Seq::empty())
    } else {
        match (pem_bundle(v.drop_last()), crypto::x509_pem(v.last().1.der@)) {
            (Some(before), Some(bytes)) => Some(before + bytes),
            _ => None,
        }
    }
}

/// The export of the intermediates as PEM.
pub open spec fn intermediates_pem_export(v: Seq<(String, Certificate)>) -> Result<
    Seq<char>,
    Seq<char>,
> {
    if v.len() == 0 {
        Err("no intermediate certificates loaded"@)
    } else {
        match pem_bundle(v) {
            Some(bytes) => utf8_export(bytes),
            None => Err("failed to encode intermediate as PEM"@),
        }
    }
}

/// The reports on all intermediates, each under its title, with a blank line between them.
pub open spec fn intermediates_report(v: Seq<(String, Certificate)>, now: Moment) -> Seq<char>
    decreases v.len(),
{
    if v.len() == 0 {
        Seq::empty()
    } else {
        let before = intermediates_report(v.drop_last(), now);
        (if v.len() > 1 {
            before.push('\n')
        } else {
            before
        }) + "Intermediate #"@ + text::decimal(v.len()) + " ("@ + v.last().0@ + ")\n"@
            + report::certificate_text(v.last().1, now)
    }
}

/// The export of the intermediates as text.
pub open spec fn intermediates_text_export(v: Seq<(String, Certificate)>, now: Moment) -> Result<
    Seq<char>,
    Seq<char>,
> {
    if v.len() == 0 {
        Err("no intermediate certificates loaded"@)
    } else {
        Ok(intermediates_report(v, now))
    }
}

/// The export of the private key as PEM.
pub open spec fn key_pem_export(key: Option<PrivateKey>) -> Result<Seq<char>, Seq<char>> {
    match key {
        Some(k) => match crypto::private_key_pem(k.der@) {
            Some(bytes) => utf8_export(bytes),
            None => Err("failed to encode key as PEM"@),
        },
        None => Err("no private key loaded"@),
    }
}

/// The export of the private key as text.
pub open spec fn key_text_export(key: Option<PrivateKey>) -> Result<Seq<char>, Seq<char>> {
    match key {
        Some(k) => Ok(report::private_key_text(k, "PRIVATE KEY"@, false)),
        None => Err("no private key loaded"@),
    }
}

fn utf8_or_error(bytes: Vec<u8>) -> (r: Result<String, &'static str>)
    ensures
        export_view(r) == utf8_export(bytes@),
        r matches Ok(t) ==> encode_utf8(t@) == bytes@,
{
    broadcast use decode_utf8_encode_utf8;

    match text::decode_strict(bytes) {
        Some(s) => Ok(s),
        None => Err("PEM output is not valid UTF-8"),
    }
}

/// Exports the leaf certificate as PEM. Whoever reads the text finds that certificate again.
pub fn leaf_pem(set: &CertSet) -> (r: Result<String, &'static str>)
    ensures
        export_view(r) == leaf_pem_export(set.leaf),
        r matches Ok(t) ==> crypto::fits(encode_utf8(t@)) ==> crypto::x509_of_pem(encode_utf8(t@))
            == crypto::x509_of_der(set.leaf->0.der@),
{
    match &set.leaf {
        Some(c) => match crypto::certificate_to_pem(&c.der) {
            Some(bytes) => utf8_or_error(bytes),
            None => Err("failed to encode certificate as PEM"),
        },
        None => Err("no certificate loaded"),
    }
}

/// Exports the leaf certificate as text, as of the moment `now`.
pub fn leaf_text_at(set: &CertSet, now: Moment) -> (r: Result<String, &'static str>)
    ensures
        export_view(r) == leaf_text_export(set.leaf, now),
{
    match &set.leaf {
        Some(c) => Ok(report::cert_report(c, now)),
        None => Err("no certificate loaded"),
    }
}

/// Exports the leaf certificate as text, as of some moment.
pub fn leaf_text(set: &CertSet) -> (r: Result<String, &'static str>)
    ensures
        exists|now: Moment| export_view(r) == #[trigger] leaf_text_export(set.leaf, now),
{
    leaf_text_at(set, clock::now())
}

/// Whether each part is PEM text in which the intermediate in its place is found again.
pub open spec fn read_back(parts: Seq<Seq<u8>>, v: Seq<(String, Certificate)>) -> bool {
    &&& parts.len() == v.len()
    &&& forall|i: int|
        0 <= i < v.len() && crypto::fits(parts[i]) ==> crypto::x509_of_pem(#[trigger] parts[i])
            == crypto::x509_of_der(v[i].1.der@)
}

/// Exports the intermediates as PEM, one after the other. Whoever reads a part of the text finds the
/// certificate in its place again.
pub fn intermediates_pem(set: &CertSet) -> (r: Result<String, &'static str>)
    ensures
        export_view(r) == intermediates_pem_export(set.intermediates@),
        r matches Ok(t) ==> exists|parts: Seq<Seq<u8>>|
            encode_utf8(t@) == parts.flatten() && #[trigger] read_back(parts, set.intermediates@),
{
    let v: &Vec<(String, Certificate)> = &set.intermediates;
    if v.len() == 0 {
        return Err("no intermediate certificates loaded");
    }
    let mut out: Vec<u8> = Vec::new();
    let ghost mut parts: Seq<Seq<u8>> = Seq::empty();
    let mut i: usize = 0;
    assert(v@.take(0) =~= Seq::empty());
    while i < v.len()
        invariant
            i <= v@.len(),
            v@ == set.intermediates@,
            pem_bundle(v@.take(i as int)) == Some(out@),
            parts.flatten() == out@,
            read_back(parts, v@.take(i as int)),
        decreases v.len() - i,
    {
        assert(v@.take(i + 1).drop_last() =~= v@.take(i as int));
        match crypto::certificate_to_pem(&v[i].1.der) {
            Some(bytes) => {
                proof {
                    let longer = parts.push(bytes@);
                    assert(longer.drop_last() =~= parts);
                    longer.lemma_flatten_and_flatten_alt_are_equivalent();
                    parts.lemma_flatten_and_flatten_alt_are_equivalent();
                    assert forall|k: int| 0 <= k <= i && crypto::fits(longer[k]) implies crypto::x509_of_pem(
                        #[trigger] longer[k],
                    ) == crypto::x509_of_der(v@.take(i + 1)[k].1.der@) by {
                        if k < i {
                            assert(v@.take(i as int)[k] == v@.take(i + 1)[k]);
                            assert(longer[k] == parts[k]);
                        }
                    }
                    parts = longer;
                }
                let mut bytes = bytes;
                out.append(&mut bytes);
            },
            None => {
                assert(pem_bundle(v@.take(i + 1)) is None);
                proof {
                    lemma_bundle_fails(v@, i + 1);
                }
                return Err("failed to encode intermediate as PEM");
            },
        }
        i += 1;
    }
    assert(v@.take(i as int) =~= v@);
    utf8_or_error(out)
}

proof fn lemma_bundle_fails(v: Seq<(String, Certificate)>, n: int)
    requires
        0 <= n <= v.len(),
        pem_bundle(v.take(n)) is None,
    ensures
        pem_bundle(v) is None,
    decreases v.len() - n,
{
    if n == v.len() {
        assert(v.take(n) =~= v);
    } else {
        assert(v.take(n + 1).drop_last() =~= v.take(n));
        lemma_bundle_fails(v, n + 1);
    }
}

/// Exports the intermediates as text, as of the moment `now`.
pub fn intermediates_text_at(set: &CertSet, now: Moment) -> (r: Result<String, &'static str>)
    ensures
        export_view(r) == intermediates_text_export(set.intermediates@, now),
{
    let v: &Vec<(String, Certificate)> = &set.intermediates;
    if v.len() == 0 {
        return Err("no intermediate certificates loaded");
    }
    let mut out: String = String::new();
    let mut i: usize = 0;
    assert(v@.take(0) =~= Seq::empty());
    while i < v.len()
        invariant
            i <= v@.len(),
            out@ == intermediates_report(v@.take(i as int), now),
        decreases v.len() - i,
    {
        assert(v@.take(i + 1).drop_last() =~= v@.take(i as int));
        if i > 0 {
            out.push('\n');
        }
        out.append("Intermediate #");
        out.append(&text::dec_usize(i + 1));
        out.append(" (");
        out.append(&v[i].0);
        out.append(")\n");
        out.append(&report::cert_report(&v[i].1, now));
        i += 1;
    }
    assert(v@.take(i as int) =~= v@);
    Ok(out)
}

/// Exports the intermediates as text, as of some moment.
pub fn intermediates_text(set: &CertSet) -> (r: Result<String, &'static str>)
    ensures
        exists|now: Moment|
            export_view(r) == #[trigger] intermediates_text_export(set.intermediates@, now),
{
    intermediates_text_at(set, clock::now())
}

/// Exports the private key as PEM. Whoever reads the text finds that key again.
pub fn key_pem(set: &CertSet) -> (r: Result<String, &'static str>)
    ensures
        export_view(r) == key_pem_export(set.key),
        r matches Ok(t) ==> crypto::fits(encode_utf8(t@)) ==> crypto::private_key_of_pem(
            encode_utf8(t@),
        ) == crypto::private_key_of_der(set.key->0.der@),
{
    match &set.key {
        Some(k) => match crypto::key_to_pem(&k.der) {
            Some(bytes) => utf8_or_error(bytes),
            None => Err("failed to encode key as PEM"),
        },
        None => Err("no private key loaded"),
    }
}

/// Exports the private key as text.
pub fn key_text(set: &CertSet) -> (r: Result<String, &'static str>)
    ensures
        export_view(r) == key_text_export(set.key),
{
    match &set.key {
        Some(k) => Ok(report::key_report(k, "PRIVATE KEY", false)),
        None => Err("no private key loaded"),
    }
}

/// A set is complete exactly where it misses nothing.
pub proof fn complete_misses_nothing(set: CertSet)
    ensures
        set.complete() == (set.missing().len() == 0),
{
}

/// What a file without encrypted sections holds is settled by its contents: however its sections
/// are decoded, the same certificates and the same private key come out.
pub proof fn contents_settle_material(
    sections: Seq<(Seq<char>, Seq<u8>)>,
    a: Seq<Option<Seq<u8>>>,
    b: Seq<Option<Seq<u8>>>,
)
    requires
        decode_to(sections, a),
        decode_to(sections, b),
        forall|i: int| 0 <= i < sections.len() ==> !crypto::says_encrypted((#[trigger] sections[i]).1),
    ensures
        certificates_in(sections, a) == certificates_in(sections, b),
        key_in(sections, a) == key_in(sections, b),
    decreases sections.len(),
{
    if sections.len() > 0 {
        let n = sections.len() - 1;
        let rest = sections.drop_last();
        assert(decodes_to(sections[n], a[n]));
        assert(decodes_to(sections[n], b[n]));
        assert forall|i: int| 0 <= i < rest.len() implies decodes_to(
            rest[i],
            #[trigger] a.drop_last()[i],
        ) by {
            assert(decodes_to(sections[i], a[i]));
        }
        assert forall|i: int| 0 <= i < rest.len() implies decodes_to(
            rest[i],
            #[trigger] b.drop_last()[i],
        ) by {
            assert(decodes_to(sections[i], b[i]));
        }
        contents_settle_material(rest, a.drop_last(), b.drop_last());
    }
}

/// Whether `places` lists, from the first to the last, exactly the sections that give a certificate:
/// those with a certificate's label that decode. Of sections that say they are encrypted, and can be
/// taken, any may be among them.
pub open spec fn certificate_places(sections: Seq<(Seq<char>, Seq<u8>)>, places: Seq<int>) -> bool {
    &&& forall|a: int, b: int|
        0 <= a < b < places.len() ==> #[trigger] places[a] < #[trigger] places[b]
    &&& forall|a: int|
        0 <= a < places.len() ==> {
            let p = #[trigger] places[a];
            &&& 0 <= p < sections.len()
            &&& sections[p].0 == "CERTIFICATE"@ || sections[p].0 == "X509 CERTIFICATE"@
                || sections[p].0 == "TRUSTED CERTIFICATE"@
            &&& sections[p].1.len() <= 0x7fff_ffff
        }
    &&& forall|i: int|
        #![trigger sections[i]]
        0 <= i < sections.len() && (sections[i].0 == "CERTIFICATE"@ || sections[i].0
            == "X509 CERTIFICATE"@ || sections[i].0 == "TRUSTED CERTIFICATE"@)
            && sections[i].1.len() <= 0x7fff_ffff && !crypto::says_encrypted(sections[i].1)
            && crypto::x509_of_pem(sections[i].1) is Some ==> places.contains(i)
}

/// Whether the certificates with the given encodings are, one by one and in order, those of the
/// sections at `places`.
pub open spec fn come_from(
    ders: Seq<Seq<u8>>,
    sections: Seq<(Seq<char>, Seq<u8>)>,
    places: Seq<int>,
) -> bool {
    &&& ders.len() == places.len()
    &&& forall|k: int|
        #![trigger ders[k]]
        #![trigger places[k]]
        0 <= k < ders.len() && !crypto::says_encrypted(sections[places[k]].1)
            ==> crypto::x509_of_pem(sections[places[k]].1) == Some(ders[k])
}

proof fn lemma_places(
    sections: Seq<(Seq<char>, Seq<u8>)>,
    outcomes: Seq<Option<Seq<u8>>>,
) -> (places: Seq<int>)
    requires
        decode_to(sections, outcomes),
    ensures
        certificate_places(sections, places),
        come_from(certificates_in(sections, outcomes), sections, places),
    decreases sections.len(),
{
    if sections.len() == 0 {
        let none = Seq::<int>::empty();
        none
    } else {
        let n = sections.len() - 1;
        let rest = sections.drop_last();
        let fewer = outcomes.drop_last();
        assert(decodes_to(sections[n], outcomes[n]));
        assert forall|i: int| 0 <= i < rest.len() implies decodes_to(rest[i], #[trigger] fewer[i]) by {
            assert(decodes_to(sections[i], outcomes[i]));
        }
        let before = lemma_places(rest, fewer);
        let ders = certificates_in(rest, fewer);
        let taken = report::is_certificate_label(sections[n].0) && outcomes[n] is Some;
        let places = if taken {
            before.push(n as int)
        } else {
            before
        };
        assert forall|a: int| 0 <= a < before.len() implies 0 <= #[trigger] before[a] < n by {}
        assert forall|i: int|
            #![trigger sections[i]]
            0 <= i < sections.len() && (sections[i].0 == "CERTIFICATE"@ || sections[i].0
                == "X509 CERTIFICATE"@ || sections[i].0 == "TRUSTED CERTIFICATE"@)
                && sections[i].1.len() <= 0x7fff_ffff && !crypto::says_encrypted(sections[i].1)
                && crypto::x509_of_pem(sections[i].1) is Some implies places.contains(i) by {
            if i < n {
                assert(rest[i] == sections[i]);
                assert(before.contains(i));
                let a = choose|a: int| 0 <= a < before.len() && before[a] == i;
                assert(places[a] == i);
            } else {
                assert(places[before.len() as int] == n);
            }
        }
        assert forall|a: int| 0 <= a < places.len() implies {
            let p = #[trigger] places[a];
            &&& 0 <= p < sections.len()
            &&& sections[p].0 == "CERTIFICATE"@ || sections[p].0 == "X509 CERTIFICATE"@
                || sections[p].0 == "TRUSTED CERTIFICATE"@
            &&& sections[p].1.len() <= 0x7fff_ffff
        } by {
            if a < before.len() {
                assert(places[a] == before[a]);
                assert(rest[before[a]] == sections[before[a]]);
            }
        }
        let all = certificates_in(sections, outcomes);
        assert forall|k: int|
            #![trigger all[k]]
            0 <= k < all.len() && !crypto::says_encrypted(sections[places[k]].1) implies crypto::x509_of_pem(
            sections[places[k]].1,
        ) == Some(all[k]) by {
            if k < ders.len() {
                assert(all[k] == ders[k]);
                assert(places[k] == before[k]);
                assert(rest[before[k]] == sections[before[k]]);
            }
        }
        places
    }
}

/// Of a PEM file the certificates come out in the order in which their sections stand in the file, one
/// for each section with a certificate's label that decodes. The leaf is the first of them, the
/// intermediates are all of them.
pub proof fn certificates_keep_file_order(
    raw: Seq<u8>,
    certs: Seq<Certificate>,
    key: Option<PrivateKey>,
    slot: LoadSlot,
    r: Result<ExtractedMaterial, String>,
)
    requires
        gathered(raw, certs, key),
        selected(certs, key, slot, r),
        text::within(text::utf8_lossy(raw), "-----BEGIN "@),
    ensures
        exists|places: Seq<int>|
            #![trigger certificate_places(pem::pem_sections(raw), places)]
            {
                let sections = pem::pem_sections(raw);
                let ders = Seq::new(certs.len(), |k: int| certs[k].der@);
                &&& certificate_places(sections, places)
                &&& come_from(ders, sections, places)
                &&& slot is Leaf ==> (r is Ok) == (places.len() > 0)
                &&& slot is Intermediates ==> (r is Ok) == (places.len() > 0)
                &&& r matches Ok(ExtractedMaterial::Certificate(c)) ==> slot is Leaf && c.der@ == ders[0]
                &&& r matches Ok(ExtractedMaterial::Certificates(v)) ==> slot is Intermediates && v@
                    == certs
            },
{
    text::lemma_occurs(text::utf8_lossy(raw), "-----BEGIN "@);
    let sections = pem::pem_sections(raw);
    let outcomes = choose|outcomes: Seq<Option<Seq<u8>>>| #[trigger]
        decode_to(sections, outcomes) && are_certificates(certs, certificates_in(sections, outcomes))
            && is_key(key, key_in(sections, outcomes));
    let places = lemma_places(sections, outcomes);
    let ders = Seq::new(certs.len(), |k: int| certs[k].der@);
    assert(ders =~= certificates_in(sections, outcomes)) by {
        assert forall|k: int| 0 <= k < certs.len() implies ders[k] == certificates_in(
            sections,
            outcomes,
        )[k] by {
            assert(crypto::is_certificate(certs[k], certificates_in(sections, outcomes)[k]));
        }
    }
    assert(certificate_places(sections, places));
}

/// Whether a label is one of private keys that are not encrypted as a whole.
pub open spec fn names_key(label: Seq<char>) -> bool {
    label == "PRIVATE KEY"@ || label == "RSA PRIVATE KEY"@ || label == "EC PRIVATE KEY"@
}

proof fn lemma_first_key(
    sections: Seq<(Seq<char>, Seq<u8>)>,
    outcomes: Seq<Option<Seq<u8>>>,
)
    requires
        decode_to(sections, outcomes),
    ensures
        match key_in(sections, outcomes) {
            Some(der) => exists|i: int|
                0 <= i < sections.len() && names_key((#[trigger] sections[i]).0) && outcomes[i] == Some(
                    der,
                ) && forall|j: int|
                    0 <= j < i && names_key((#[trigger] sections[j]).0) ==> outcomes[j] is None,
            None => forall|j: int|
                0 <= j < sections.len() && names_key((#[trigger] sections[j]).0) ==> outcomes[j] is None,
        },
    decreases sections.len(),
{
    if sections.len() > 0 {
        let n = sections.len() - 1;
        let rest = sections.drop_last();
        let fewer = outcomes.drop_last();
        assert forall|i: int| 0 <= i < rest.len() implies decodes_to(rest[i], #[trigger] fewer[i]) by {
            assert(decodes_to(sections[i], outcomes[i]));
        }
        lemma_first_key(rest, fewer);
        if let Some(der) = key_in(rest, fewer) {
            let i = choose|i: int|
                0 <= i < rest.len() && names_key((#[trigger] rest[i]).0) && fewer[i] == Some(der)
                    && forall|j: int|
                    0 <= j < i && names_key((#[trigger] rest[j]).0) ==> fewer[j] is None;
            assert(sections[i] == rest[i]);
            assert forall|j: int|
                0 <= j < i && names_key((#[trigger] sections[j]).0) implies outcomes[j] is None by {
                assert(rest[j] == sections[j]);
                assert(fewer[j] == outcomes[j]);
            }
        } else {
            assert forall|j: int|
                0 <= j < n && names_key((#[trigger] sections[j]).0) implies outcomes[j] is None by {
                assert(rest[j] == sections[j]);
                assert(fewer[j] == outcomes[j]);
            }
            assert(sections[n] == sections.last());
        }
    }
}

/// Of a PEM file without encrypted sections the private key is that of the first section with the label
/// of a private key that decodes; where there is none, there is no key. A slot for the key gets it.
pub proof fn first_key_counts(
    raw: Seq<u8>,
    certs: Seq<Certificate>,
    key: Option<PrivateKey>,
    slot: LoadSlot,
    r: Result<ExtractedMaterial, String>,
)
    requires
        gathered(raw, certs, key),
        selected(certs, key, slot, r),
        text::within(text::utf8_lossy(raw), "-----BEGIN "@),
        forall|i: int|
            0 <= i < pem::pem_sections(raw).len() ==> !crypto::says_encrypted(
                (#[trigger] pem::pem_sections(raw)[i]).1,
            ),
    ensures
        ({
            let sections = pem::pem_sections(raw);
            let good = |i: int|
                names_key(sections[i].0) && sections[i].1.len() <= 0x7fff_ffff
                    && crypto::private_key_of_pem(sections[i].1) is Some;
            &&& match key {
                Some(k) => exists|i: int|
                    0 <= i < sections.len() && #[trigger] good(i) && crypto::private_key_of_pem(
                        sections[i].1,
                    ) == Some(k.der@) && forall|j: int| 0 <= j < i ==> !#[trigger] good(j),
                None => forall|j: int| 0 <= j < sections.len() ==> !#[trigger] good(j),
            }
            &&& slot is Key ==> match r {
                Ok(m) => m matches ExtractedMaterial::PrivateKey(k) && key == Some(k),
                Err(_) => key is None,
            }
        }),
{
    text::lemma_occurs(text::utf8_lossy(raw), "-----BEGIN "@);
    let sections = pem::pem_sections(raw);
    let outcomes = choose|outcomes: Seq<Option<Seq<u8>>>| #[trigger]
        decode_to(sections, outcomes) && are_certificates(certs, certificates_in(sections, outcomes))
            && is_key(key, key_in(sections, outcomes));
    lemma_first_key(sections, outcomes);
    let good = |i: int|
        names_key(sections[i].0) && sections[i].1.len() <= 0x7fff_ffff && crypto::private_key_of_pem(
            sections[i].1,
        ) is Some;
    assert forall|i: int| 0 <= i < sections.len() && names_key(sections[i].0) implies (
    outcomes[i] is Some) == #[trigger] good(i) && (outcomes[i] is Some ==> outcomes[i]
        == crypto::private_key_of_pem(sections[i].1)) by {
        assert(decodes_to(sections[i], outcomes[i]));
        assert(!crypto::says_encrypted(sections[i].1));
        lemma_key_labels(sections[i].0);
    }
    if let Some(k) = key {
        let der = key_in(sections, outcomes)->0;
        let i = choose|i: int|
            0 <= i < sections.len() && names_key((#[trigger] sections[i]).0) && outcomes[i] == Some(der)
                && forall|j: int|
                0 <= j < i && names_key((#[trigger] sections[j]).0) ==> outcomes[j] is None;
        assert(good(i));
        assert forall|j: int| 0 <= j < i implies !#[trigger] good(j) by {
            if names_key(sections[j].0) {
                assert(outcomes[j] is None);
            }
        }
    } else {
        assert forall|j: int| 0 <= j < sections.len() implies !#[trigger] good(j) by {
            if names_key(sections[j].0) {
                assert(outcomes[j] is None);
            }
        }
    }
}

proof fn lemma_key_labels(label: Seq<char>)
    ensures
        names_key(label) == report::is_plain_key_label(label),
{
}

/// A file without a `BEGIN` marker holds at most one thing: a certificate, or else a private key.
pub proof fn der_holds_one(
    raw: Seq<u8>,
    certs: Seq<Certificate>,
    key: Option<PrivateKey>,
    slot: LoadSlot,
    r: Result<ExtractedMaterial, String>,
)
    requires
        gathered(raw, certs, key),
        selected(certs, key, slot, r),
        !text::within(text::utf8_lossy(raw), "-----BEGIN "@),
    ensures
        match crypto::x509_of_der(raw) {
            Some(der) => {
                &&& certs.len() == 1 && certs[0].der@ == der && key is None
                &&& slot is Leaf ==> (r matches Ok(ExtractedMaterial::Certificate(c)) && c.der@ == der)
                &&& slot is Intermediates ==> (r matches Ok(ExtractedMaterial::Certificates(v))
                    && v@.len() == 1 && v@[0].der@ == der)
                &&& slot is Key ==> r is Err
            },
            None => {
                &&& certs.len() == 0
                &&& match crypto::private_key_of_der(raw) {
                    Some(der) => key matches Some(k) && k.der@ == der,
                    None => key is None,
                }
                &&& slot is Key ==> match crypto::private_key_of_der(raw) {
                    Some(der) => r matches Ok(ExtractedMaterial::PrivateKey(k)) && k.der@ == der,
                    None => r is Err,
                }
                &&& !(slot is Key) ==> r is Err
            },
        },
{
    text::search_finds_first(text::utf8_lossy(raw), "-----BEGIN "@, 0);
    if let Some(der) = crypto::x509_of_der(raw) {
        assert(crypto::is_certificate(certs[0], der));
    }
}

/// What a certificate tells is what OpenSSL reads in its encoding: two certificates with the same
/// encoding tell the same, and each part comes from its own source.
pub proof fn certificates_tell_encoding(c: Certificate, der: Seq<u8>)
    requires
        crypto::is_certificate(c, der),
    ensures
        c.der@ == der,
        crypto::entries_view(c.subject@) == crypto::x509_subject(der),
        crypto::entries_view(c.issuer@) == crypto::x509_issuer(der),
        c.not_before@ == crypto::x509_not_before(der),
        c.not_after@ == crypto::x509_not_after(der),
        crypto::text_option(c.serial) == crypto::x509_serial(der),
        crypto::text_option(c.signature) == crypto::x509_signature(der),
        (c.key is Ok) == (crypto::x509_key(der) is Some),
        c.key matches Ok(k) ==> crypto::x509_key(der) == Some((k.bits, k.id)),
        crypto::bytes_option(c.subject_key_id) == crypto::x509_subject_key_id(der),
        crypto::bytes_option(c.authority_key_id) == crypto::x509_authority_key_id(der),
        crypto::bytes_option(c.sha256) == crypto::x509_sha256(der),
        c.path_length == crypto::x509_path_length(der),
{
}

/// The heading of a set's window tells of each component whether it is there, and how many
/// intermediates there are.
pub proof fn headings_tell_components(set: CertSet)
    ensures
        text::begins(
            set.heading(),
            set.title@ + (if set.leaf is Some {
                "   [cert OK] [intermediate(s): "@
            } else {
                "   [cert --] [intermediate(s): "@
            }) + text::decimal(set.intermediates@.len()) + "] [key "@,
        ),
        text::ends(
            set.heading(),
            if set.key is Some {
                "] [key OK]"@
            } else {
                "] [key --]"@
            },
        ),
{
    reveal_strlit("   [cert ");
    reveal_strlit("OK");
    reveal_strlit("--");
    reveal_strlit("] [intermediate(s): ");
    reveal_strlit("   [cert OK] [intermediate(s): ");
    reveal_strlit("   [cert --] [intermediate(s): ");
    let h = set.heading();
    let state = if set.leaf is Some {
        "   [cert OK] [intermediate(s): "@
    } else {
        "   [cert --] [intermediate(s): "@
    };
    let word = if set.leaf is Some {
        "OK"@
    } else {
        "--"@
    };
    assert("   [cert "@ + word + "] [intermediate(s): "@ =~= state);
    let count = text::decimal(set.intermediates@.len());
    let start = set.title@ + state + count + "] [key "@;
    let last = if set.key is Some {
        "OK"@
    } else {
        "--"@
    };
    assert(h =~= set.title@ + ("   [cert "@ + word + "] [intermediate(s): "@) + count + "] [key "@ + last
        + "]"@);
    assert(h.subrange(0, start.len() as int) =~= start);
    reveal_strlit("] [key ");
    reveal_strlit("]");
    reveal_strlit("] [key OK]");
    reveal_strlit("] [key --]");
    let tail = if set.key is Some {
        "] [key OK]"@
    } else {
        "] [key --]"@
    };
    assert("] [key "@ + last + "]"@ =~= tail);
    assert(h.subrange(h.len() - tail.len(), h.len() as int) =~= tail);
}

/// Sets with different numbers have different titles, which end with the number.
pub proof fn titles_tell_numbers(n: nat, m: nat)
    ensures
        text::begins(set_title(n), "Certificate Set #"@),
        text::ends(set_title(n), text::decimal(n)),
        set_title(n) == set_title(m) ==> n == m,
{
    let start = "Certificate Set #"@;
    let t = set_title(n);
    let d = text::decimal(n);
    assert(t.subrange(0, start.len() as int) =~= start);
    assert(t.subrange(t.len() - d.len(), t.len() as int) =~= d);
    if set_title(n) == set_title(m) {
        assert(set_title(m).skip(start.len() as int) =~= text::decimal(m));
        assert(t.skip(start.len() as int) =~= d);
        text::decimal_counts(n, m);
    }
}

/// What is missing is named: a certificate, a private key, or both; intermediates never are.
pub proof fn missing_is_named(set: CertSet)
    ensures
        set.missing().contains("certificate"@) == (set.leaf is None),
        set.missing().contains("key"@) == (set.key is None),
        set.missing().len() == (if set.leaf is None {
            1int
        } else {
            0
        }) + (if set.key is None {
            1int
        } else {
            0
        }),
        set.leaf is None ==> set.missing()[0] == "certificate"@,
{
    reveal_strlit("certificate");
    reveal_strlit("key");
    assert("certificate"@.len() != "key"@.len());
    let m = set.missing();
    if set.leaf is None {
        assert(m[0] == "certificate"@);
    }
    if set.key is None {
        assert(m[m.len() - 1] == "key"@);
    }
}

/// A line of a report as a window shows it: two columns further in, and empty if it is blank.
pub open spec fn moved_in(shown: Seq<char>, line: Seq<char>) -> bool {
    if forall|i: int| 0 <= i < line.len() ==> text::white_space(#[trigger] line[i]) {
        shown.len() == 0
    } else {
        shown == seq![' ', ' '] + line
    }
}

proof fn lemma_moved_in(line: Seq<char>)
    ensures
        moved_in(indented_line(line), line),
{
    reveal_strlit("  ");
    assert("  "@ =~= seq![' ', ' ']);
    text::trimming_is_tight(line);
    let t = text::trimmed(line);
    let i = choose|i: int|
        0 <= i && i + t.len() <= line.len() && #[trigger] line.subrange(i, i + t.len()) == t && (
        forall|k: int| 0 <= k < i ==> text::white_space(#[trigger] line[k])) && (forall|k: int|
            i + t.len() <= k < line.len() ==> text::white_space(#[trigger] line[k]));
    if t.len() > 0 {
        assert(line.subrange(i, i + t.len())[0] == line[i]);
        assert(!text::white_space(line[i]));
    }
}

/// Whether lines in a window, from the one with the number `from` on, are a component's: its title with
/// its path, and then its report.
pub open spec fn shown_from(
    lines: Seq<Seq<char>>,
    from: int,
    title: Seq<char>,
    path: Seq<char>,
    report: Seq<char>,
) -> bool {
    &&& 0 <= from
    &&& from + text::lines(report).len() < lines.len()
    &&& lines[from] == title + "  ("@ + path + ")"@
    &&& forall|k: int|
        0 <= k < text::lines(report).len() ==> moved_in(
            lines[from + 1 + k],
            #[trigger] text::lines(report)[k],
        )
}

proof fn lemma_component_shown(
    before: Seq<Seq<char>>,
    title: Seq<char>,
    path: Seq<char>,
    report: Seq<char>,
    after: Seq<Seq<char>>,
)
    ensures
        shown_from(
            before + component_lines(title, path, report) + after,
            before.len() as int,
            title,
            path,
            report,
        ),
{
    let all = before + component_lines(title, path, report) + after;
    let n = before.len() as int;
    let list = text::lines(report);
    assert forall|k: int| 0 <= k < list.len() implies moved_in(
        all[n + 1 + k],
        #[trigger] list[k],
    ) by {
        assert(all[n + 1 + k] == indented(report)[k]);
        lemma_moved_in(list[k]);
    }
}

/// A set's window begins with its heading and a rule, and then shows the leaf certificate with its path
/// and its report, or how to load one.
pub proof fn window_begins_with_leaf(set: CertSet, now: Moment)
    ensures
        ({
            let w = set.window(now);
            &&& w.len() > 2
            &&& w[0] == set.heading()
            &&& w[1].len() == 60 && forall|i: int| 0 <= i < 60 ==> #[trigger] w[1][i] == '='
            &&& set.leaf is Some && set.leaf_path is Some ==> shown_from(
                w,
                2,
                "LEAF CERTIFICATE"@,
                set.leaf_path->0@,
                report::certificate_text(set.leaf->0, now),
            )
            &&& set.leaf is None ==> w[2] == "LEAF CERTIFICATE  --  use File > Open Certificate..."@
        }),
{
    let w = set.window(now);
    let head = seq![set.heading(), text::repeated('=', 60)];
    let rest = set.middle_lines(now) + set.key_lines() + seq![
        Seq::<char>::empty(),
        "VERIFICATION"@,
        text::repeated('-', 60),
    ] + set.verification_lines();
    assert(w =~= head + set.leaf_lines(now) + rest);
    if set.leaf is Some && set.leaf_path is Some {
        lemma_component_shown(
            head,
            "LEAF CERTIFICATE"@,
            set.leaf_path->0@,
            report::certificate_text(set.leaf->0, now),
            rest,
        );
    }
}

proof fn lemma_intermediates_split(v: Seq<(String, Certificate)>, now: Moment, k: int) -> (rest: Seq<
    Seq<char>,
>)
    requires
        0 <= k < v.len(),
    ensures
        intermediate_lines(v, now) == intermediate_lines(v.take(k), now) + component_lines(
            "INTERMEDIATE #"@ + text::decimal((k + 1) as nat),
            v[k].0@,
            report::certificate_text(v[k].1, now),
        ) + rest,
    decreases v.len(),
{
    let n = v.len() - 1;
    let last = component_lines(
        "INTERMEDIATE #"@ + text::decimal(v.len()),
        v.last().0@,
        report::certificate_text(v.last().1, now),
    );
    if k == n {
        assert(v.take(k) =~= v.drop_last());
        let all = intermediate_lines(v, now);
        assert(all =~= all + Seq::<Seq<char>>::empty());
        Seq::empty()
    } else {
        let rest = lemma_intermediates_split(v.drop_last(), now, k);
        assert(v.drop_last().take(k) =~= v.take(k));
        let a = intermediate_lines(v.take(k), now);
        let b = component_lines(
            "INTERMEDIATE #"@ + text::decimal((k + 1) as nat),
            v[k].0@,
            report::certificate_text(v[k].1, now),
        );
        assert(a + b + rest + last =~= a + b + (rest + last));
        rest + last
    }
}

proof fn lemma_lines_regroup(
    head: Seq<Seq<char>>,
    a: Seq<Seq<char>>,
    b: Seq<Seq<char>>,
    rest: Seq<Seq<char>>,
    tail: Seq<Seq<char>>,
)
    ensures
        head + (a + b + rest) + tail == (head + a) + b + (rest + tail),
{
    assert(head + (a + b + rest) + tail =~= (head + a) + b + (rest + tail));
}

proof fn lemma_window_middle(set: CertSet, now: Moment)
    ensures
        set.intermediates@.len() > 0 ==> set.window(now) == (seq![
            set.heading(),
            text::repeated('=', 60),
        ] + set.leaf_lines(now)) + intermediate_lines(set.intermediates@, now) + (set.key_lines()
            + seq![Seq::<char>::empty(), "VERIFICATION"@, text::repeated('-', 60)]
            + set.verification_lines()),
{
    let head = seq![set.heading(), text::repeated('=', 60)] + set.leaf_lines(now);
    let m = set.middle_lines(now);
    let k = set.key_lines();
    let x = seq![Seq::<char>::empty(), "VERIFICATION"@, text::repeated('-', 60)];
    let v = set.verification_lines();
    lemma_five(head, m, k, x, v);
}

proof fn lemma_five(
    a: Seq<Seq<char>>,
    b: Seq<Seq<char>>,
    c: Seq<Seq<char>>,
    d: Seq<Seq<char>>,
    e: Seq<Seq<char>>,
)
    ensures
        a + b + c + d + e == a + b + (c + d + e),
{
    assert(a + b + c + d + e =~= a + b + (c + d + e));
}

/// After the leaf a set's window shows every intermediate in its order, under its number, with its path
/// and its report.
pub proof fn window_shows_intermediates(set: CertSet, now: Moment, k: int)
    requires
        0 <= k < set.intermediates@.len(),
    ensures
        ({
            let v = set.intermediates@;
            let place = |i: int|
                2 + set.leaf_lines(now).len() + intermediate_lines(v.take(i), now).len() as int;
            &&& shown_from(
                set.window(now),
                place(k),
                "INTERMEDIATE #"@ + text::decimal((k + 1) as nat),
                v[k].0@,
                report::certificate_text(v[k].1, now),
            )
            &&& k > 0 ==> place(k - 1) < place(k)
            &&& k == 0 ==> place(k) == 2 + set.leaf_lines(now).len()
        }),
{
    let v = set.intermediates@;
    lemma_intermediate_shown(set, now, k);
    if k > 0 {
        assert(v.take(k).drop_last() =~= v.take(k - 1));
    } else {
        assert(v.take(0) =~= Seq::empty());
    }
}

#[verifier::spinoff_prover]
proof fn lemma_intermediate_shown(set: CertSet, now: Moment, k: int)
    requires
        0 <= k < set.intermediates@.len(),
    ensures
        shown_from(
            set.window(now),
            2 + set.leaf_lines(now).len() + intermediate_lines(
                set.intermediates@.take(k),
                now,
            ).len() as int,
            "INTERMEDIATE #"@ + text::decimal((k + 1) as nat),
            set.intermediates@[k].0@,
            report::certificate_text(set.intermediates@[k].1, now),
        ),
{
    let v = set.intermediates@;
    let rest = lemma_intermediates_split(v, now, k);
    let head = seq![set.heading(), text::repeated('=', 60)] + set.leaf_lines(now);
    let title = "INTERMEDIATE #"@ + text::decimal((k + 1) as nat);
    let block = report::certificate_text(v[k].1, now);
    let tail = set.key_lines() + seq![
        Seq::<char>::empty(),
        "VERIFICATION"@,
        text::repeated('-', 60),
    ] + set.verification_lines();
    let a = intermediate_lines(v.take(k), now);
    lemma_window_middle(set, now);
    lemma_lines_regroup(head, a, component_lines(title, v[k].0@, block), rest, tail);
    lemma_component_shown(head + a, title, v[k].0@, block, rest + tail);
}

/// After the intermediates a set's window shows the private key with its path and its report, or how to
/// load one.
pub proof fn window_shows_key(set: CertSet, now: Moment)
    ensures
        ({
            let place = 2 + set.leaf_lines(now).len() + set.middle_lines(now).len() as int;
            &&& set.key is Some && set.key_path is Some ==> shown_from(
                set.window(now),
                place,
                "PRIVATE KEY"@,
                set.key_path->0@,
                report::private_key_text(set.key->0, "PRIVATE KEY"@, false),
            )
            &&& set.key is None ==> set.window(now)[place]
                == "PRIVATE KEY       --  use File > Open Key..."@
        }),
{
    let w = set.window(now);
    let head = seq![set.heading(), text::repeated('=', 60)] + set.leaf_lines(now) + set.middle_lines(
        now,
    );
    let rest = seq![Seq::<char>::empty(), "VERIFICATION"@, text::repeated('-', 60)]
        + set.verification_lines();
    assert(w =~= head + set.key_lines() + rest);
    if set.key is Some && set.key_path is Some {
        lemma_component_shown(
            head,
            "PRIVATE KEY"@,
            set.key_path->0@,
            report::private_key_text(set.key->0, "PRIVATE KEY"@, false),
            rest,
        );
    }
}

proof fn lemma_single_line(s: Seq<char>)
    requires
        s.len() > 0,
        forall|i: int| 0 <= i < s.len() ==> #[trigger] s[i] != '\n',
    ensures
        text::lines(s) == seq![s],
{
    text::lemma_line_length(s, s.len() as int);
}

/// A set's window ends with the report of the verification, or with what the verification waits for.
pub proof fn window_ends_with_verification(set: CertSet, now: Moment)
    ensures
        ({
            let w = set.window(now);
            let n = w.len() as int;
            &&& set.verification matches Some(r) ==> {
                let v = text::lines(r@);
                &&& n > v.len() + 3
                &&& w[n - v.len() - 2] == "VERIFICATION"@
                &&& forall|k: int|
                    0 <= k < v.len() ==> moved_in(w[n - v.len() + k], #[trigger] v[k])
            }
            &&& set.verification is None ==> {
                &&& w[n - 3] == "VERIFICATION"@
                &&& set.leaf is Some && set.key is Some ==> moved_in(w[n - 1], "pending..."@)
                &&& set.leaf is None && set.key is Some ==> moved_in(
                    w[n - 1],
                    "waiting for remaining components: certificate"@,
                )
                &&& set.leaf is Some && set.key is None ==> moved_in(
                    w[n - 1],
                    "waiting for remaining components: key"@,
                )
                &&& set.leaf is None && set.key is None ==> moved_in(
                    w[n - 1],
                    "waiting for remaining components: certificate, key"@,
                )
            }
        }),
{
    let w = set.window(now);
    let head = seq![set.heading(), text::repeated('=', 60)] + set.leaf_lines(now) + set.middle_lines(
        now,
    ) + set.key_lines();
    let mid = seq![Seq::<char>::empty(), "VERIFICATION"@, text::repeated('-', 60)];
    let last = set.verification_lines();
    assert(w =~= head + mid + last);
    if let Some(r) = set.verification {
        let v = text::lines(r@);
        assert forall|k: int| 0 <= k < v.len() implies moved_in(
            w[w.len() - v.len() + k],
            #[trigger] v[k],
        ) by {
            assert(w[w.len() - v.len() + k] == indented(r@)[k]);
            lemma_moved_in(v[k]);
        }
    } else {
        let s = if set.complete() {
            "pending..."@
        } else {
            "waiting for remaining components: "@ + text::joined(set.missing(), ", "@)
        };
        lemma_waiting(set);
        lemma_single_line(s);
        lemma_moved_in(s);
        assert(indented(s) =~= seq![indented_line(s)]);
        assert(last == indented(s));
        assert(w[w.len() - 1] == indented_line(s));
    }
}

proof fn lemma_waiting(set: CertSet)
    ensures
        forall|i: int| 0 <= i < "pending..."@.len() ==> #[trigger] "pending..."@[i] != '\n',
        "pending..."@.len() > 0,
        !set.complete() ==> ({
            let s = "waiting for remaining components: "@ + text::joined(set.missing(), ", "@);
            &&& s.len() > 0
            &&& forall|i: int| 0 <= i < s.len() ==> #[trigger] s[i] != '\n'
            &&& s == (if set.key is Some {
                "waiting for remaining components: certificate"@
            } else if set.leaf is Some {
                "waiting for remaining components: key"@
            } else {
                "waiting for remaining components: certificate, key"@
            })
        }),
{
    reveal_strlit("pending...");
    reveal_strlit("waiting for remaining components: ");
    reveal_strlit("certificate");
    reveal_strlit("key");
    reveal_strlit(", ");
    if !set.complete() {
        let m = set.missing();
        let s = "waiting for remaining components: "@ + text::joined(m, ", "@);
        reveal_with_fuel(text::joined, 3);
        if set.key is Some {
            reveal_strlit("waiting for remaining components: certificate");
            assert(text::joined(m, ", "@) =~= "certificate"@);
            assert(s =~= "waiting for remaining components: certificate"@);
        } else if set.leaf is Some {
            reveal_strlit("waiting for remaining components: key");
            assert(text::joined(m, ", "@) =~= "key"@);
            assert(s =~= "waiting for remaining components: key"@);
        } else {
            reveal_strlit("waiting for remaining components: certificate, key");
            text::joined_splits(seq!["certificate"@], seq!["key"@], ", "@);
            assert(m =~= seq!["certificate"@] + seq!["key"@]);
            assert(text::joined(seq!["certificate"@], ", "@) =~= "certificate"@);
            assert(text::joined(seq!["key"@], ", "@) =~= "key"@);
            assert(s =~= "waiting for remaining components: certificate, key"@);
        }
    }
}

/// What is known of a private key is what its encoding says.
pub proof fn private_keys_tell_encoding(k: PrivateKey, der: Seq<u8>)
    requires
        crypto::is_private_key(k, der),
    ensures
        k.der@ == der,
        (k.info.bits, k.info.id) == crypto::private_key_info(der),
        crypto::bytes_option(k.sha256) == crypto::sha256_of(der),
        crypto::rsa_view(k.rsa) == crypto::private_key_rsa(der),
{
}

/// A new set holds nothing and misses a certificate and a private key; its title tells its number.
pub proof fn new_sets_are_empty(set: CertSet, id: usize)
    requires
        set.fresh(id),
    ensures
        set.id == id,
        text::ends(set.title@, text::decimal(id as nat)),
        set.leaf is None && set.key is None && set.intermediates@.len() == 0,
        set.verification is None,
        set.missing() == seq!["certificate"@, "key"@],
        !set.complete(),
{
    titles_tell_numbers(id as nat, id as nat);
    assert(set.missing() =~= seq!["certificate"@, "key"@]);
}

/// A file without what is asked for is refused with what it lacks, for each component in its own words.
pub proof fn refusals_tell_what_lacks(
    certs: Seq<Certificate>,
    key: Option<PrivateKey>,
    slot: LoadSlot,
    r: Result<ExtractedMaterial, String>,
)
    requires
        selected(certs, key, slot, r),
    ensures
        (r is Err) == (if slot == LoadSlot::Key {
            key is None
        } else {
            certs.len() == 0
        }),
        r matches Err(e) ==> e@ == match slot {
            LoadSlot::Leaf => "no certificate found in this file"@,
            LoadSlot::Intermediates => "no certificates found in this file"@,
            LoadSlot::Key => "no private key found in this file"@,
        },
{
}

} // verus!
