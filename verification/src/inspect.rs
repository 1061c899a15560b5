//! Reports on whole files.
use vstd::prelude::*;
use vstd::string::*;
use crate::clock;
use crate::clock::Moment;
use crate::crypto;
use crate::crypto::{Certificate, PrivateKey, PublicKey, SigningRequest};
use crate::pem;
use crate::report;
use crate::text;

verus! {

/// The line for a section that could not be decoded, with the decoder's message.
pub open spec fn failure_text(message: Seq<char>) -> Seq<char> {
    "  <decode failed: "@ + message + ">\n"@
}

/// The line for a section that nothing here decodes.
pub open spec fn no_decoder_text(label: Seq<char>) -> Seq<char> {
    "  <no decoder for PEM label \""@ + label + "\">\n"@
}

/// Whether `t` reports on the decoding of a section as a certificate.
pub open spec fn reports_certificate(block: Seq<u8>, now: Moment, t: Seq<char>) -> bool {
    ||| exists|c: Certificate| #[trigger]
        report::certificate_text(c, now) == t && crypto::is_certificate(c, c.der@) && (
        !crypto::says_encrypted(block) ==> crypto::x509_of_pem(block) == Some(c.der@))
    ||| exists|e: Seq<char>| #[trigger]
        failure_text(e) == t && (!crypto::says_encrypted(block) ==> crypto::x509_of_pem(
            block,
        ) is None)
}

/// Whether `t` reports on the decoding of a section as a private key.
pub open spec fn reports_private_key(label: Seq<char>, block: Seq<u8>, t: Seq<char>) -> bool {
    let encrypted = label == "ENCRYPTED PRIVATE KEY"@;
    ||| exists|k: PrivateKey| #[trigger]
        report::private_key_text(k, label, encrypted) == t && crypto::is_private_key(k, k.der@) && (
        !crypto::says_encrypted(block) ==> crypto::private_key_of_pem(block) == Some(k.der@))
    ||| exists|e: Seq<char>| #[trigger]
        failure_text(e) == t && (!crypto::says_encrypted(block) ==> crypto::private_key_of_pem(
            block,
        ) is None)
}

/// Whether `t` reports on the decoding of a section as a public key.
pub open spec fn reports_public_key(block: Seq<u8>, t: Seq<char>) -> bool {
    ||| exists|k: PublicKey| #[trigger]
        report::public_key_text(k) == t && (!crypto::says_encrypted(block)
            ==> crypto::public_key_of_pem(block) == Some(crypto::public_key_view(k)))
    ||| exists|e: Seq<char>| #[trigger]
        failure_text(e) == t && (!crypto::says_encrypted(block) ==> crypto::public_key_of_pem(
            block,
        ) is None)
}

/// Whether `t` reports on the decoding of a section as a signing request.
pub open spec fn reports_request(block: Seq<u8>, t: Seq<char>) -> bool {
    ||| exists|q: SigningRequest| #[trigger]
        report::request_text(q) == t && (!crypto::says_encrypted(block) ==> crypto::request_of_pem(
            block,
        ) == Some(crypto::request_view(q)))
    ||| exists|e: Seq<char>| #[trigger]
        failure_text(e) == t && (!crypto::says_encrypted(block) ==> crypto::request_of_pem(
            block,
        ) is None)
}

/// Whether sections with the given label are decoded.
pub open spec fn has_decoder(label: Seq<char>) -> bool {
    ||| report::is_certificate_label(label)
    ||| report::is_key_label(label)
    ||| report::is_public_key_label(label)
    ||| report::is_request_label(label)
}

/// Whether `t` is a report on a section: the label decides how the section is decoded. A section that
/// is too long is reported on as one that could not be decoded.
pub open spec fn reports_section(
    label: Seq<char>,
    block: Seq<u8>,
    now: Moment,
    t: Seq<char>,
) -> bool {
    if has_decoder(label) && !crypto::fits(block) {
        t == failure_text(crypto::too_long_text())
    } else if report::is_certificate_label(label) {
        reports_certificate(block, now, t)
    } else if report::is_key_label(label) {
        reports_private_key(label, block, t)
    } else if report::is_public_key_label(label) {
        reports_public_key(block, t)
    } else if report::is_request_label(label) {
        reports_request(block, t)
    } else {
        t == no_decoder_text(label)
    }
}

/// The report on one PEM section.
pub fn analyze_block(label: &str, block: &Vec<u8>, now: Moment) -> (r: String)
    ensures
        reports_section(label@, block@, now, r@),
{
    if report::certificate_label(label) {
        match Certificate::from_pem(block) {
            Ok(c) => report::cert_report(&c, now),
            Err(e) => failure(&e),
        }
    } else if report::plain_key_label(label) || text::str_eq(label, "ENCRYPTED PRIVATE KEY") {
        let encrypted: bool = text::str_eq(label, "ENCRYPTED PRIVATE KEY");
        match PrivateKey::from_pem(block) {
            Ok(k) => report::key_report(&k, label, encrypted),
            Err(e) => failure(&e),
        }
    } else if report::public_key_label(label) {
        match PublicKey::from_pem(block) {
            Ok(k) => report::pubkey_report(&k),
            Err(e) => failure(&e),
        }
    } else if report::request_label(label) {
        match SigningRequest::from_pem(block) {
            Ok(q) => report::csr_report(&q),
            Err(e) => failure(&e),
        }
    } else {
        let mut out: String = "  <no decoder for PEM label \"".to_string();
        out.append(label);
        out.append("\">\n");
        out
    }
}

fn failure(message: &str) -> (r: String)
    ensures
        r@ == failure_text(message@),
{
    let mut out: String = "  <decode failed: ".to_string();
    out.append(message);
    out.append(">\n");
    out
}

/// Whether `r` reports on DER bytes: as a certificate, else as a private key, else as a public key,
/// else as a signing request, else not at all.
pub open spec fn reports_der(raw: Seq<u8>, now: Moment, r: Option<Seq<char>>) -> bool {
    if crypto::x509_of_der(raw) is Some {
        exists|c: Certificate|
            r == Some("\n=== DER: X.509 certificate ===\n"@ + #[trigger] report::certificate_text(c, now))
                && crypto::is_certificate(c, crypto::x509_of_der(raw)->0)
    } else if crypto::private_key_of_der(raw) is Some {
        exists|k: PrivateKey|
            r == Some(
                "\n=== DER: private key ===\n"@ + #[trigger] report::private_key_text(k, "DER"@, false),
            ) && crypto::is_private_key(k, crypto::private_key_of_der(raw)->0)
    } else if crypto::public_key_of_der(raw) is Some {
        exists|k: PublicKey|
            r == Some("\n=== DER: public key ===\n"@ + #[trigger] report::public_key_text(k))
                && crypto::public_key_view(k) == crypto::public_key_of_der(raw)->0
    } else if crypto::request_of_der(raw) is Some {
        exists|q: SigningRequest|
            r == Some("\n=== DER: CSR ===\n"@ + #[trigger] report::request_text(q))
                && crypto::request_view(q) == crypto::request_of_der(raw)->0
    } else {
        r is None
    }
}

/// The report on DER bytes.
pub fn analyze_der(raw: &Vec<u8>, now: Moment) -> (r: Option<String>)
    ensures
        reports_der(raw@, now, crypto::text_option(r)),
{
    if let Some(c) = Certificate::from_der(raw) {
        let mut out: String = "\n=== DER: X.509 certificate ===\n".to_string();
        out.append(&report::cert_report(&c, now));
        return Some(out);
    }
    if let Some(k) = PrivateKey::from_der(raw) {
        let mut out: String = "\n=== DER: private key ===\n".to_string();
        out.append(&report::key_report(&k, "DER", false));
        return Some(out);
    }
    if let Some(k) = PublicKey::from_der(raw) {
        let mut out: String = "\n=== DER: public key ===\n".to_string();
        out.append(&report::pubkey_report(&k));
        return Some(out);
    }
    if let Some(q) = SigningRequest::from_der(raw) {
        let mut out: String = "\n=== DER: CSR ===\n".to_string();
        out.append(&report::csr_report(&q));
        return Some(out);
    }
    None
}

/// The head of the report on a file.
pub open spec fn head_text(path: Seq<char>, size: nat) -> Seq<char> {
    "File      : "@ + path + "\n"@ + "Size      : "@ + text::decimal(size) + " bytes\n"@
}

/// The title of the section with the given number.
pub open spec fn title_text(number: nat, label: Seq<char>) -> Seq<char> {
    "\n=== Section "@ + text::decimal(number) + ": "@ + label + " ("@ + report::label_text(label)
        + ") ===\n"@
}

/// The reports on all sections, each under its title.
pub open spec fn body_text(
    sections: Seq<(Seq<char>, Seq<u8>)>,
    reports: Seq<Seq<char>>,
) -> Seq<char>
    decreases sections.len(),
{
    if sections.len() == 0 {
        Seq::empty()
    } else {
        body_text(sections.drop_last(), reports.drop_last()) + (title_text(
            sections.len(),
            sections.last().0,
        ) + reports.last())
    }
}

/// Whether each of `reports` is a report on its section.
pub open spec fn reports_sections(
    sections: Seq<(Seq<char>, Seq<u8>)>,
    now: Moment,
    reports: Seq<Seq<char>>,
) -> bool {
    &&& reports.len() == sections.len()
    &&& forall|i: int|
        0 <= i < sections.len() ==> reports_section(
            sections[i].0,
            sections[i].1,
            now,
            #[trigger] reports[i],
        )
}

/// Whether `r` is the outcome of inspecting a file with the contents `raw` at the moment `now`: a
/// file that holds a `BEGIN` marker is PEM and must hold a section, any other is DER and must be
/// something that is known.
pub open spec fn inspected(
    path: Seq<char>,
    raw: Seq<u8>,
    now: Moment,
    r: Result<Seq<char>, Seq<char>>,
) -> bool {
    let head = head_text(path, raw.len());
    if text::occurs(text::utf8_lossy(raw), "-----BEGIN "@) {
        let sections = pem::pem_sections(raw);
        if sections.len() == 0 {
            r == Err::<Seq<char>, _>("PEM markers found but no complete BEGIN/END blocks"@)
        } else {
            exists|reports: Seq<Seq<char>>|
                r == Ok::<_, Seq<char>>(
                    head + ("Format    : PEM, "@ + text::decimal(sections.len()) + " section(s)\n"@)
                        + #[trigger] body_text(sections, reports),
                ) && reports_sections(sections, now, reports)
        }
    } else if crypto::x509_of_der(raw) is None && crypto::private_key_of_der(raw) is None
        && crypto::public_key_of_der(raw) is None && crypto::request_of_der(raw) is None {
        r == Err::<Seq<char>, _>("not a recognized DER structure"@)
    } else {
        exists|t: Seq<char>|
            r == Ok::<_, Seq<char>>(head + "Format    : DER\n"@ + t) && #[trigger] reports_der(
                raw,
                now,
                Some(t),
            )
    }
}

/// The contents of a report or of an error.
pub open spec fn result_view(r: Result<String, String>) -> Result<Seq<char>, Seq<char>> {
    match r {
        Ok(s) => Ok(s@),
        Err(e) => Err(e@),
    }
}

fn section_title(number: usize, label: &str) -> (r: String)
    ensures
        r@ == title_text(number as nat, label@),
{
    let mut out: String = "\n=== Section ".to_string();
    out.append(&text::dec_usize(number));
    out.append(": ");
    out.append(label);
    out.append(" (");
    out.append(report::describe_label(label));
    out.append(") ===\n");
    out
}

/// Inspects a file with the contents `raw` at the moment `now`.
pub fn analyze_file_at(path: &str, raw: &Vec<u8>, now: Moment) -> (r: Result<String, String>)
    ensures
        inspected(path@, raw@, now, result_view(r)),
{
    let mut out: String = "File      : ".to_string();
    out.append(path);
    out.append("\n");
    out.append("Size      : ");
    out.append(&text::dec_usize(raw.len()));
    out.append(" bytes\n");
    let ghost head = out@;
    if text::contains(&text::decode_lossy(raw), "-----BEGIN ") {
        let list: Vec<(String, Vec<u8>)> = pem::split_pem(raw);
        let ghost all = pem::sections_view(list@);
        if list.len() == 0 {
            return Err("PEM markers found but no complete BEGIN/END blocks".to_string());
        }
        let mut line: String = "Format    : PEM, ".to_string();
        line.append(&text::dec_usize(list.len()));
        line.append(" section(s)\n");
        out.append(&line);
        let ghost start = out@;
        let ghost mut reports: Seq<Seq<char>> = Seq::empty();
        let mut i: usize = 0;
        assert(all.take(0) =~= Seq::empty());
        assert(start + body_text(all.take(0), reports) =~= start);
        while i < list.len()
            invariant
                i <= list@.len(),
                all == pem::sections_view(list@),
                reports_sections(all.take(i as int), now, reports),
                out@ == start + body_text(all.take(i as int), reports),
            decreases list.len() - i,
        {
            let mut piece: String = section_title(i + 1, &list[i].0);
            let part: String = analyze_block(&list[i].0, &list[i].1, now);
            piece.append(&part);
            let ghost before = out@;
            out.append(&piece);
            proof {
                let next = all.take(i + 1);
                let more = reports.push(part@);
                assert(next.drop_last() =~= all.take(i as int));
                assert(more.drop_last() =~= reports);
                assert(out@ =~= start + body_text(next, more));
                assert forall|j: int| 0 <= j < next.len() implies reports_section(
                    next[j].0,
                    next[j].1,
                    now,
                    #[trigger] more[j],
                ) by {
                    if j < i {
                        assert(reports_section(
                            all.take(i as int)[j].0,
                            all.take(i as int)[j].1,
                            now,
                            reports[j],
                        ));
                    }
                }
                reports = more;
            }
            i += 1;
        }
        assert(all.take(i as int) =~= all);
        Ok(out)
    } else {
        out.append("Format    : DER\n");
        match analyze_der(raw, now) {
            Some(t) => {
                assert(reports_der(raw@, now, Some(t@)));
                out.append(&t);
                Ok(out)
            },
            None => Err("not a recognized DER structure".to_string()),
        }
    }
}

/// Inspects a file with the contents `raw`. Certificates are reported on as of some moment.
pub fn analyze_file(path: &str, raw: &Vec<u8>) -> (r: Result<String, String>)
    ensures
        exists|now: Moment| #[trigger] inspected(path@, raw@, now, result_view(r)),
{
    analyze_file_at(path, raw, clock::now())
}

/// A section with a certificate's label is reported on as the certificate that OpenSSL reads in it; if
/// OpenSSL reads none, the report says that.
pub proof fn certificate_sections_are_reported(
    label: Seq<char>,
    block: Seq<u8>,
    now: Moment,
    t: Seq<char>,
)
    requires
        reports_section(label, block, now, t),
        label == "CERTIFICATE"@ || label == "X509 CERTIFICATE"@ || label == "TRUSTED CERTIFICATE"@,
        crypto::fits(block),
        !crypto::says_encrypted(block),
    ensures
        match crypto::x509_of_pem(block) {
            Some(der) => exists|c: Certificate| #[trigger]
                crypto::is_certificate(c, der) && t == report::certificate_text(c, now),
            None => text::begins(t, "  <decode failed: "@),
        },
{
    assert(report::is_certificate_label(label));
    if exists|c: Certificate| #[trigger]
        report::certificate_text(c, now) == t && crypto::is_certificate(c, c.der@) && (
        !crypto::says_encrypted(block) ==> crypto::x509_of_pem(block) == Some(c.der@)) {
        let c = choose|c: Certificate| #[trigger]
            report::certificate_text(c, now) == t && crypto::is_certificate(c, c.der@) && (
            !crypto::says_encrypted(block) ==> crypto::x509_of_pem(block) == Some(c.der@));
        assert(crypto::is_certificate(c, crypto::x509_of_pem(block)->0));
    } else {
        let e = choose|e: Seq<char>| #[trigger]
            failure_text(e) == t && (!crypto::says_encrypted(block) ==> crypto::x509_of_pem(
                block,
            ) is None);
        lemma_failure_told(e);
    }
}

proof fn lemma_failure_told(e: Seq<char>)
    ensures
        text::begins(failure_text(e), "  <decode failed: "@),
        text::within(failure_text(e), e),
{
    let start = "  <decode failed: "@;
    let t = failure_text(e);
    assert(t.subrange(0, start.len() as int) =~= start);
    text::lemma_within(start, e, ">\n"@);
}

/// A section with a private key's label is reported on as the private key that OpenSSL reads in it,
/// under that label; if OpenSSL reads none, the report says that.
pub proof fn key_sections_are_reported(
    label: Seq<char>,
    block: Seq<u8>,
    now: Moment,
    t: Seq<char>,
)
    requires
        reports_section(label, block, now, t),
        label == "PRIVATE KEY"@ || label == "RSA PRIVATE KEY"@ || label == "EC PRIVATE KEY"@ || label
            == "ENCRYPTED PRIVATE KEY"@,
        crypto::fits(block),
        !crypto::says_encrypted(block),
    ensures
        match crypto::private_key_of_pem(block) {
            Some(der) => exists|k: PrivateKey| #[trigger]
                crypto::is_private_key(k, der) && t == report::private_key_text(
                    k,
                    label,
                    label == "ENCRYPTED PRIVATE KEY"@,
                ),
            None => text::begins(t, "  <decode failed: "@),
        },
{
    report::lemma_labels_differ();
    assert(report::is_key_label(label));
    assert(reports_private_key(label, block, t));
    let encrypted = label == "ENCRYPTED PRIVATE KEY"@;
    if exists|k: PrivateKey| #[trigger]
        report::private_key_text(k, label, encrypted) == t && crypto::is_private_key(k, k.der@) && (
        !crypto::says_encrypted(block) ==> crypto::private_key_of_pem(block) == Some(k.der@)) {
        let k = choose|k: PrivateKey| #[trigger]
            report::private_key_text(k, label, encrypted) == t && crypto::is_private_key(k, k.der@)
                && (!crypto::says_encrypted(block) ==> crypto::private_key_of_pem(block) == Some(
                k.der@,
            ));
        assert(crypto::is_private_key(k, crypto::private_key_of_pem(block)->0));
    } else {
        let e = choose|e: Seq<char>| #[trigger]
            failure_text(e) == t && (!crypto::says_encrypted(block) ==> crypto::private_key_of_pem(
                block,
            ) is None);
        lemma_failure_told(e);
    }
}

/// Sections with the labels of public keys and of signing requests are reported on as what OpenSSL
/// reads in them; if it reads nothing, the report says that.
pub proof fn further_sections_are_reported(
    label: Seq<char>,
    block: Seq<u8>,
    now: Moment,
    t: Seq<char>,
)
    requires
        reports_section(label, block, now, t),
        crypto::fits(block),
        !crypto::says_encrypted(block),
    ensures
        label == "PUBLIC KEY"@ || label == "RSA PUBLIC KEY"@ || label == "EC PUBLIC KEY"@
            ==> match crypto::public_key_of_pem(block) {
            Some(v) => exists|k: PublicKey|
                crypto::public_key_view(k) == v && t == #[trigger] report::public_key_text(k),
            None => text::begins(t, "  <decode failed: "@),
        },
        label == "CERTIFICATE REQUEST"@ || label == "NEW CERTIFICATE REQUEST"@
            ==> match crypto::request_of_pem(block) {
            Some(v) => exists|q: SigningRequest|
                crypto::request_view(q) == v && t == #[trigger] report::request_text(q),
            None => text::begins(t, "  <decode failed: "@),
        },
{
    report::lemma_labels_differ();
    if report::is_public_key_label(label) {
        assert(reports_public_key(block, t));
        if !(exists|k: PublicKey| #[trigger]
            report::public_key_text(k) == t && (!crypto::says_encrypted(block)
                ==> crypto::public_key_of_pem(block) == Some(crypto::public_key_view(k)))) {
            let e = choose|e: Seq<char>| #[trigger]
                failure_text(e) == t && (!crypto::says_encrypted(block) ==> crypto::public_key_of_pem(
                    block,
                ) is None);
            lemma_failure_told(e);
        }
    } else if report::is_request_label(label) {
        assert(reports_request(block, t));
        if !(exists|q: SigningRequest| #[trigger]
            report::request_text(q) == t && (!crypto::says_encrypted(block) ==> crypto::request_of_pem(
                block,
            ) == Some(crypto::request_view(q)))) {
            let e = choose|e: Seq<char>| #[trigger]
                failure_text(e) == t && (!crypto::says_encrypted(block) ==> crypto::request_of_pem(
                    block,
                ) is None);
            lemma_failure_told(e);
        }
    }
}

/// A section with a label that is not known is reported on by its label alone, whatever it holds.
pub proof fn unknown_sections_are_named(label: Seq<char>, block: Seq<u8>, now: Moment, t: Seq<char>)
    requires
        reports_section(label, block, now, t),
        report::label_text(label) == "unrecognized"@,
    ensures
        text::begins(t, "  <no decoder for PEM label \""@ + label),
{
    report::labels_are_described(label);
    report::lemma_descriptions_differ();
    let start = "  <no decoder for PEM label \""@ + label;
    assert(t.subrange(0, start.len() as int) =~= start);
}

proof fn lemma_body_split(
    sections: Seq<(Seq<char>, Seq<u8>)>,
    reports: Seq<Seq<char>>,
    k: int,
) -> (rest: Seq<char>)
    requires
        reports.len() == sections.len(),
        0 <= k < sections.len(),
    ensures
        body_text(sections, reports) == body_text(sections.take(k), reports.take(k)) + (title_text(
            (k + 1) as nat,
            sections[k].0,
        ) + reports[k]) + rest,
    decreases sections.len(),
{
    let n = sections.len() - 1;
    let last = title_text(sections.len(), sections.last().0) + reports.last();
    if k == n {
        assert(sections.take(k) =~= sections.drop_last());
        assert(reports.take(k) =~= reports.drop_last());
        let whole = body_text(sections, reports);
        assert(whole =~= whole + Seq::<char>::empty());
        Seq::empty()
    } else {
        let rest = lemma_body_split(sections.drop_last(), reports.drop_last(), k);
        assert(sections.drop_last().take(k) =~= sections.take(k));
        assert(reports.drop_last().take(k) =~= reports.take(k));
        lemma_regroup(
            body_text(sections.take(k), reports.take(k)),
            title_text((k + 1) as nat, sections[k].0) + reports[k],
            rest,
            last,
        );
        rest + last
    }
}

proof fn lemma_regroup(a: Seq<char>, b: Seq<char>, c: Seq<char>, d: Seq<char>)
    ensures
        a + b + c + d == a + b + (c + d),
{
    assert(a + b + c + d =~= a + b + (c + d));
}

/// Whether two texts stand in another one after the other.
pub open spec fn one_after_other(t: Seq<char>, p: Seq<char>, q: Seq<char>) -> bool {
    exists|a: Seq<char>, b: Seq<char>, c: Seq<char>| t == #[trigger] (a + p + b + q + c)
}

/// The line above the report on a section.
pub open spec fn numbered_title(number: nat, label: Seq<char>) -> Seq<char> {
    "\n=== Section "@ + text::decimal(number) + ": "@ + label + " ("@ + report::label_text(label)
        + ") ===\n"@
}

/// The sections of a PEM file are reported on in their order, each under a title with its number, its
/// label and what that stands for.
pub proof fn sections_keep_order(
    path: Seq<char>,
    raw: Seq<u8>,
    now: Moment,
    t: Seq<char>,
    i: int,
    j: int,
)
    requires
        inspected(path, raw, now, Ok(t)),
        text::within(text::utf8_lossy(raw), "-----BEGIN "@),
        0 <= i < j < pem::pem_sections(raw).len(),
    ensures
        ({
            let s = pem::pem_sections(raw);
            exists|first: Seq<char>, second: Seq<char>|
                #![trigger
                    reports_section(s[i].0, s[i].1, now, first),
                    reports_section(s[j].0, s[j].1, now, second)]
                reports_section(s[i].0, s[i].1, now, first) && reports_section(
                    s[j].0,
                    s[j].1,
                    now,
                    second,
                ) && one_after_other(
                    t,
                    numbered_title((i + 1) as nat, s[i].0) + first,
                    numbered_title((j + 1) as nat, s[j].0) + second,
                )
        }),
{
    text::lemma_occurs(text::utf8_lossy(raw), "-----BEGIN "@);
    let s = pem::pem_sections(raw);
    let head = head_text(path, raw.len()) + ("Format    : PEM, "@ + text::decimal(s.len())
        + " section(s)\n"@);
    let reports = choose|reports: Seq<Seq<char>>|
        Ok::<Seq<char>, Seq<char>>(t) == Ok::<_, Seq<char>>(
            head_text(path, raw.len()) + ("Format    : PEM, "@ + text::decimal(s.len())
                + " section(s)\n"@) + #[trigger] body_text(s, reports),
        ) && reports_sections(s, now, reports);
    let c = lemma_body_split(s, reports, j);
    let b = lemma_body_split(s.take(j), reports.take(j), i);
    assert(s.take(j).take(i) =~= s.take(i));
    assert(reports.take(j).take(i) =~= reports.take(i));
    assert(reports_section(s[i].0, s[i].1, now, reports[i]));
    assert(reports_section(s[j].0, s[j].1, now, reports[j]));
    let a = body_text(s.take(i), reports.take(i));
    let p = title_text((i + 1) as nat, s[i].0) + reports[i];
    let q = title_text((j + 1) as nat, s[j].0) + reports[j];
    assert(t == head + (a + p + b + q + c));
    lemma_put_before(head, a, p, b, q, c);
    assert(t == (head + a) + p + b + q + c);
    assert(one_after_other(t, p, q));
}

proof fn lemma_put_before(
    h: Seq<char>,
    a: Seq<char>,
    p: Seq<char>,
    b: Seq<char>,
    q: Seq<char>,
    c: Seq<char>,
)
    ensures
        h + (a + p + b + q + c) == (h + a) + p + b + q + c,
{
    assert(h + (a + p + b + q + c) =~= (h + a) + p + b + q + c);
}

/// Every report begins with the file's path and size and says whether it is PEM, and with how many
/// sections, or DER. A file in which a section begins is PEM and is reported on exactly if a section
/// is complete in it; any other file is, if OpenSSL reads something in it.
pub proof fn reports_tell_file(
    path: Seq<char>,
    raw: Seq<u8>,
    now: Moment,
    r: Result<Seq<char>, Seq<char>>,
)
    requires
        inspected(path, raw, now, r),
    ensures
        ({
            let pem = text::within(text::utf8_lossy(raw), "-----BEGIN "@);
            let n = pem::pem_sections(raw).len();
            let head = "File      : "@ + path + "\n"@ + "Size      : "@ + text::decimal(raw.len())
                + " bytes\n"@;
            &&& pem ==> (r is Ok) == (n > 0)
            &&& !pem ==> (r is Ok) == (crypto::x509_of_der(raw) is Some || crypto::private_key_of_der(
                raw,
            ) is Some || crypto::public_key_of_der(raw) is Some || crypto::request_of_der(raw) is Some)
            &&& r matches Ok(t) ==> text::begins(
                t,
                head + (if pem {
                    "Format    : PEM, "@ + text::decimal(n) + " section(s)\n"@
                } else {
                    "Format    : DER\n"@
                }),
            )
        }),
{
    let whole = text::utf8_lossy(raw);
    if text::within(whole, "-----BEGIN "@) {
        text::lemma_occurs(whole, "-----BEGIN "@);
    }
    text::search_finds_first(whole, "-----BEGIN "@, 0);
    if let Ok(t) = r {
        let head = head_text(path, raw.len());
        let s = pem::pem_sections(raw);
        if text::occurs(whole, "-----BEGIN "@) {
            let line = "Format    : PEM, "@ + text::decimal(s.len()) + " section(s)\n"@;
            let reports = choose|reports: Seq<Seq<char>>|
                r == Ok::<_, Seq<char>>(
                    head_text(path, raw.len()) + ("Format    : PEM, "@ + text::decimal(s.len())
                        + " section(s)\n"@) + #[trigger] body_text(s, reports),
                ) && reports_sections(s, now, reports);
            lemma_front(head + line, body_text(s, reports));
        } else {
            let d = choose|d: Seq<char>|
                r == Ok::<_, Seq<char>>(head_text(path, raw.len()) + "Format    : DER\n"@ + d)
                    && #[trigger] reports_der(raw, now, Some(d));
            lemma_front(head + "Format    : DER\n"@, d);
        }
    }
}

proof fn lemma_front(a: Seq<char>, b: Seq<char>)
    ensures
        text::begins(a + b, a),
{
    assert((a + b).subrange(0, a.len() as int) =~= a);
}

/// DER is reported on as the first thing that OpenSSL reads in it: a certificate, a private key, a
/// public key or a signing request, and under a title that says which.
pub proof fn der_is_told_apart(raw: Seq<u8>, now: Moment, r: Option<Seq<char>>)
    requires
        reports_der(raw, now, r),
    ensures
        ({
            let x509 = crypto::x509_of_der(raw);
            let private = crypto::private_key_of_der(raw);
            let public = crypto::public_key_of_der(raw);
            let request = crypto::request_of_der(raw);
            &&& x509 is Some ==> exists|c: Certificate| #[trigger]
                crypto::is_certificate(c, x509->0) && r == Some(
                    "\n=== DER: X.509 certificate ===\n"@ + report::certificate_text(c, now),
                )
            &&& x509 is None && private is Some ==> exists|k: PrivateKey| #[trigger]
                crypto::is_private_key(k, private->0) && r == Some(
                    "\n=== DER: private key ===\n"@ + report::private_key_text(k, "DER"@, false),
                )
            &&& x509 is None && private is None && public is Some ==> exists|k: PublicKey| #[trigger]
                crypto::public_key_view(k) == public->0 && r == Some(
                    "\n=== DER: public key ===\n"@ + report::public_key_text(k),
                )
            &&& x509 is None && private is None && public is None && request is Some ==> exists|
                q: SigningRequest,
            | #[trigger]
                crypto::request_view(q) == request->0 && r == Some(
                    "\n=== DER: CSR ===\n"@ + report::request_text(q),
                )
            &&& (r is None) == (x509 is None && private is None && public is None && request is None)
        }),
{
}

} // verus!
